pub mod fix;
pub mod protocols;
pub mod soap;
pub mod telemetry;
pub mod text;
pub mod websocket;
pub mod workload;
