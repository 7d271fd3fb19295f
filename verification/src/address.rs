use vstd::prelude::*;

verus! {

/// An account or contract on the ledger, identified by its strkey
/// (the `G...` / `C...` text form). Two addresses are the same party
/// exactly when their strkeys are equal.
#[derive(Debug, Clone, PartialEq, Eq)]
pub struct Address {
    pub strkey: String,
}

impl View for Address {
    type V = Seq<char>;

    open spec fn view(&self) -> Seq<char> {
        self.strkey@
    }
}

impl Address {
    /// The address written by the given strkey.
    pub fn from_strkey(strkey: String) -> (a: Address)
        ensures
            a.strkey == strkey,
    {
        Address { strkey }
    }

    /// Whether both values name the same party.
    pub fn same_as(&self, other: &Address) -> (r: bool)
        ensures
            r == (self@ == other@),
    {
        self.strkey == other.strkey
    }

    /// An identical copy.
    pub fn duplicate(&self) -> (r: Address)
        ensures
            r == *self,
    {
        Address { strkey: self.strkey.clone() }
    }
}

} // verus!
