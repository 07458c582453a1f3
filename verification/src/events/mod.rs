pub mod collector;
pub mod errors;
pub mod event;
pub mod event_collector;
pub mod local_event_bus;
pub mod publisher;
pub mod subscriber;
pub mod wire;

pub use collector::Collector;
pub use errors::Error;
pub use event::Event;
pub use event::EventError;
pub use event_collector::EventCollector;
pub use local_event_bus::subject_has_topic;
pub use local_event_bus::LocalEventBus;
pub use publisher::Publisher;
pub use subscriber::Handler;
pub use subscriber::Subscriber;
pub use wire::decode_envelope;
pub use wire::encode_envelope;
