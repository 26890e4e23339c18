//! Subscription broker for the named outputs of cyclic producers: which local
//! consumers want which output, what to ask of the producer side, and who
//! receives each value. Also the motion vocabulary types of the control stack.

pub mod broker;
pub mod laws;
pub mod motion;
pub mod table;
