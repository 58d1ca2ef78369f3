//! Named query scenarios of the building: entry points kept for the suite
//! of route checks (basement to third floor and back, floor to floor, API
//! response, stair or elevator choice, bad input, repeated requests, graph
//! creation, many rooms, same room). The checks themselves run as tests.
#![allow(non_snake_case)]
use vstd::prelude::*;

verus! {

/// Basement to third floor.
pub fn BtoTF() {
}

/// First floor to the second floor's study rooms.
pub fn FFtoSF() {
}

/// First floor to first floor.
pub fn FFtoFF() {
}

/// The response handed to the web layer.
pub fn API_Resp() {
}

/// Third floor to basement.
pub fn TFtoB() {
}

/// The cheaper of stairs and elevator.
pub fn Stair_Elev() {
}

/// Bad input from the front end.
pub fn BadInput() {
}

/// Several requests against one graph.
pub fn MultReq() {
}

/// Building the graph from a document.
pub fn GraphCreate() {
}

/// Queries over many rooms.
pub fn CrashTest() {
}

/// The same room as source and destination.
pub fn SameRoom() {
}

} // verus!
