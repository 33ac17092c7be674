pub mod chance;
pub mod forces;
pub mod layout;
pub mod vec2;

use vstd::prelude::*;

verus! {

/// One captured key press: the key's name and a microsecond timestamp.
#[derive(Debug)]
pub struct KeyPress {
    pub key: String,
    pub time: u32,
}

impl KeyPress {
    pub fn new(key: String, time: u32) -> (r: KeyPress)
        ensures
            r.key == key,
            r.time == time,
    {
        KeyPress { key, time }
    }
}

} // verus!
