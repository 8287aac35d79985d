use vstd::prelude::*;

verus! {

/// One of the two captured channels of the child.
#[derive(Clone, Copy, Debug, PartialEq, Eq, Structural)]
pub enum Stream {
    Stdout,
    Stderr,
}

impl Stream {
    /// The name that stands before the `:` of a ledger key.
    pub open spec fn name_spec(self) -> Seq<u8> {
        match self {
            Stream::Stdout => seq![115u8, 116, 100, 111, 117, 116],
            Stream::Stderr => seq![115u8, 116, 100, 101, 114, 114],
        }
    }

    /// The other channel: polling alternates between the two.
    pub open spec fn other_spec(self) -> Stream {
        match self {
            Stream::Stdout => Stream::Stderr,
            Stream::Stderr => Stream::Stdout,
        }
    }

    /// The other channel.
    pub fn other(self) -> (r: Stream)
        ensures
            r == self.other_spec(),
    {
        match self {
            Stream::Stdout => Stream::Stderr,
            Stream::Stderr => Stream::Stdout,
        }
    }

    /// `"stdout"` or `"stderr"` as bytes.
    pub fn name(self) -> (r: Vec<u8>)
        ensures
            r@ == self.name_spec(),
    {
        let r: Vec<u8> = match self {
            Stream::Stdout => vec![115u8, 116, 100, 111, 117, 116],
            Stream::Stderr => vec![115u8, 116, 100, 101, 114, 114],
        };
        assert(r@ =~= self.name_spec());
        r
    }
}

} // verus!
