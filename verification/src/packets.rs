//! Messages exchanged between the client and the server.
use vstd::prelude::*;

verus! {

/// A request carrying only the session token.
#[derive(Clone, Debug)]
pub struct TokenPacket {
    pub token: String,
}

/// A login request.
#[derive(Clone, Debug)]
pub struct LoginPacket {
    pub username: String,
    pub password: String,
}

/// A request for the states of the given sensors.
#[derive(Clone, Debug)]
pub struct GetStatesPacket {
    pub token: String,
    pub sensors: Vec<String>,
}

/// The state of a light as the server reports it.
#[derive(Clone, Debug)]
pub struct LightPacket {
    pub entity_id: String,
    pub state: u8,
}

/// The state of a sensor as the server reports it.
#[derive(Clone, Debug)]
pub struct SensorPacket {
    pub entity_id: String,
    pub state: String,
}

/// The states of the lights and of the requested sensors.
#[derive(Clone, Debug)]
pub struct StatesPacket {
    pub lights: Vec<LightPacket>,
    pub sensors: Vec<SensorPacket>,
}

} // verus!
