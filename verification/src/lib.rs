//! Geese is a game event system, built to allow modular game engine design.
//!
//! A system is a value with a collection of event handlers. Systems raise events and respond to
//! events that other systems raise. A system may depend on other systems, which it can borrow while
//! it handles events, and which are loaded along with it.
//!
//! The library decides; it never calls a handler or a constructor itself. System types and event
//! types are known by small integers ([`const_type_id`]), handlers, event values and threads by
//! numbers, and the values of systems are whatever the caller makes of them. The caller registers
//! system types with a [`geese_context::GeeseContext`], starts an event cycle with a queue of events
//! and then asks, step by step, which handler to run, or which systems to create and to drop.
//!
//! Of whole event cycles, the following is proved ([`cycle`], [`cycle_laws`]):
//!
//! - Every event is given once to each handler that responds to it, and every request is carried out
//!   once.
//! - Events are processed in the order in which they come into a queue, and those that a handler
//!   raises come into it in the order in which they were raised, behind all that was raised for
//!   earlier events.
//! - Embedded event cycles are processed before anything that follows them.
//! - Handlers of one system for one event are invoked in the order of the list of handlers.
//! - The handlers of dependencies are invoked before those of dependents.
//!
//! Of every state of event processing, the following is proved ([`event_laws`], [`choice_laws`]):
//!
//! - Handlers only run side by side where their systems do not conflict, so that events execute
//!   serially from the perspective of each system.
//! - A thread is given the first handler that need not wait and that it may run. Only the main thread
//!   is given handlers of systems that depend on anything which may not be shared across threads.
//!
//! Of loading and unloading systems, the following is proved ([`system_laws`], [`traits`]):
//!
//! - Everything that a system needs is loaded, comes before it, is created before it and is dropped
//!   after it.
//! - What is loaded is exactly what the systems that were added need.
//!
//! Of the requests to a context and of borrowing systems, the following is proved
//! ([`request_laws`], [`access`]):
//!
//! - A system that was added can be removed, whatever depends on it, and a system is refused only for
//!   the reasons that are stated.
//! - A dependency can be borrowed as it was declared, by the main thread in any case.
pub mod access;
pub mod adding;
pub mod arena_array;
pub mod bits;
pub mod capacity;
pub mod choice_laws;
pub mod compaction;
pub mod const_list;
pub mod const_type_id;
pub mod context;
pub mod cycle;
pub mod cycle_laws;
pub mod cycle_nesting;
pub mod cycle_order;
pub mod cycle_record;
pub mod event_laws;
pub mod event_manager;
pub mod event_map;
pub mod event_node;
pub mod events;
pub mod flags;
pub mod geese_context;
pub mod graph;
pub mod instantiation;
pub mod loading;
pub mod maps;
pub mod notify;
pub mod on;
pub mod pipeline;
pub mod receiver;
pub mod removal;
pub mod request_laws;
pub mod reset;
pub mod rw_cell;
pub mod small;
pub mod sorting;
pub mod stable_deque;
pub mod static_eval;
pub mod store;
pub mod system;
pub mod system_laws;
pub mod tables;
pub mod thread_pool;
pub mod traits;
