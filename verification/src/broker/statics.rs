//! Runtime statics keys.
use vstd::prelude::*;

verus! {

/// Under which key the broker is registered.
pub const BROKER_STATICS_KEY: &'static str = "hotaru_mqtt::broker";

} // verus!
