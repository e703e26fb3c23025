use vstd::prelude::*;

verus! {

/// The type of a query or of a record. Types that the codec does not know
/// keep their number.
#[allow(non_camel_case_types)]
#[derive(Clone, Copy, Debug, PartialEq, Eq, Hash, Structural)]
pub enum QueryType {
    UNKNOWN(u16),
    A,
    NS,
    CNAME,
    MX,
    AAAA,
}

/// Whether `num` is the number of a type that the codec knows.
pub open spec fn is_known_type(num: u16) -> bool {
    num == 1 || num == 2 || num == 5 || num == 15 || num == 28
}

impl QueryType {
    /// An `UNKNOWN` holds a number that no known type has.
    pub open spec fn wf(self) -> bool {
        self matches QueryType::UNKNOWN(num) ==> !is_known_type(num)
    }

    /// The number that stands for this type on the wire.
    pub open spec fn num(self) -> u16 {
        match self {
            QueryType::UNKNOWN(num) => num,
            QueryType::A => 1,
            QueryType::NS => 2,
            QueryType::CNAME => 5,
            QueryType::MX => 15,
            QueryType::AAAA => 28,
        }
    }

    /// The type that `num` stands for on the wire.
    pub open spec fn of_num(num: u16) -> QueryType {
        if num == 1 {
            QueryType::A
        } else if num == 2 {
            QueryType::NS
        } else if num == 5 {
            QueryType::CNAME
        } else if num == 15 {
            QueryType::MX
        } else if num == 28 {
            QueryType::AAAA
        } else {
            QueryType::UNKNOWN(num)
        }
    }

    /// The number that stands for this type on the wire.
    pub fn to_num(&self) -> (num: u16)
        ensures
            num == self.num(),
    {
        match *self {
            QueryType::UNKNOWN(x) => x,
            QueryType::A => 1,
            QueryType::NS => 2,
            QueryType::CNAME => 5,
            QueryType::MX => 15,
            QueryType::AAAA => 28,
        }
    }

    /// The type that `num` stands for on the wire.
    pub fn from_num(num: u16) -> (t: QueryType)
        ensures
            t == QueryType::of_num(num),
            t.wf(),
            t.num() == num,
    {
        match num {
            1 => QueryType::A,
            2 => QueryType::NS,
            5 => QueryType::CNAME,
            15 => QueryType::MX,
            28 => QueryType::AAAA,
            _ => QueryType::UNKNOWN(num),
        }
    }

    /// A type comes back from its own number.
    pub proof fn lemma_of_num_num(self)
        requires
            self.wf(),
        ensures
            QueryType::of_num(self.num()) == self,
    {
    }

    /// A number comes back from its own type, and that type is well formed.
    pub proof fn lemma_num_of_num(num: u16)
        ensures
            QueryType::of_num(num).num() == num,
            QueryType::of_num(num).wf(),
    {
    }
}

} // verus!
