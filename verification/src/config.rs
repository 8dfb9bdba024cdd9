use vstd::prelude::*;

verus! {

/// The rotary position embedding settings of a model configuration.
pub struct RopeParameters {
    rope_theta: usize,
    rope_type: String,
}

impl RopeParameters {
    /// Settings with the given base and kind.
    pub fn new(rope_theta: usize, rope_type: String) -> (p: Self)
        ensures
            p.theta() == rope_theta,
            p.kind() == rope_type@,
    {
        RopeParameters { rope_theta, rope_type }
    }

    /// The base of the rotary embedding.
    pub closed spec fn theta(&self) -> usize {
        self.rope_theta
    }

    /// The kind of rotary embedding.
    pub closed spec fn kind(&self) -> Seq<char> {
        self.rope_type@
    }

    /// The base of the rotary embedding.
    pub fn rope_theta(&self) -> (t: usize)
        ensures
            t == self.theta(),
    {
        self.rope_theta
    }

    /// The kind of rotary embedding.
    pub fn rope_type(&self) -> (t: &str)
        ensures
            t@ == self.kind(),
    {
        self.rope_type.as_str()
    }
}

}
