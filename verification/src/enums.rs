use vstd::prelude::*;
use vstd::string::StrSliceExecFns;

verus! {

/// Whether `c` equals the upper-case ASCII letter `upper`, ignoring ASCII case.
pub open spec fn char_matches_ignore_case(c: char, upper: char) -> bool {
    c == upper || (c as u32) == (upper as u32) + 32
}

/// `s` spells the upper-case ASCII word `upper`, ignoring ASCII case.
pub open spec fn matches_ignore_case(s: Seq<char>, upper: Seq<char>) -> bool {
    &&& s.len() == upper.len()
    &&& forall|i: int| 0 <= i < s.len() ==> char_matches_ignore_case(#[trigger] s[i], upper[i])
}

/// Every character of `s` is an upper-case ASCII letter.
pub open spec fn is_upper_word(s: Seq<char>) -> bool {
    forall|i: int| 0 <= i < s.len() ==> 'A' <= #[trigger] s[i] <= 'Z'
}

fn char_eq_ignore_case(c: char, upper: char) -> (r: bool)
    requires
        'A' <= upper <= 'Z',
    ensures
        r == char_matches_ignore_case(c, upper),
{
    c == upper || (c as u32) == (upper as u32) + 32
}

/// Whether `s` spells the upper-case word `upper`, ignoring ASCII case.
pub fn eq_ignore_case(s: &str, upper: &str) -> (r: bool)
    requires
        is_upper_word(upper@),
    ensures
        r == matches_ignore_case(s@, upper@),
{
    let n = s.unicode_len();
    if n != upper.unicode_len() {
        return false;
    }
    let mut i: usize = 0;
    while i < n
        invariant
            n == s@.len(),
            n == upper@.len(),
            is_upper_word(upper@),
            i <= n,
            forall|j: int| 0 <= j < i ==> char_matches_ignore_case(#[trigger] s@[j], upper@[j]),
        decreases n - i,
    {
        let c = s.get_char(i);
        let u = upper.get_char(i);
        assert('A' <= upper@[i as int] <= 'Z');
        if !char_eq_ignore_case(c, u) {
            return false;
        }
        i = i + 1;
    }
    true
}

/// Side of an order.
#[allow(non_camel_case_types)]
#[derive(Clone, Copy, Debug, PartialEq, Eq, Structural)]
pub enum OrderSide {
    BUY,
    SELL,
}

/// Kind of an order.
#[allow(non_camel_case_types)]
#[derive(Clone, Copy, Debug, PartialEq, Eq, Structural)]
pub enum OrderType {
    LIMIT,
    MARKET,
}

/// Life-cycle state of an order.
#[allow(non_camel_case_types)]
#[derive(Clone, Copy, Debug, PartialEq, Eq, Structural)]
pub enum OrderStatus {
    RECEIVED,
    OPEN,
    DONE,
    REJECTED,
    FILLED,
    CANCELLED,
}

pub open spec fn buy_name() -> Seq<char> {
    seq!['B', 'U', 'Y']
}

pub open spec fn sell_name() -> Seq<char> {
    seq!['S', 'E', 'L', 'L']
}

pub open spec fn limit_name() -> Seq<char> {
    seq!['L', 'I', 'M', 'I', 'T']
}

pub open spec fn market_name() -> Seq<char> {
    seq!['M', 'A', 'R', 'K', 'E', 'T']
}

impl OrderSide {
    /// The variant's name, as written in messages and queries.
    pub open spec fn name(self) -> Seq<char> {
        match self {
            OrderSide::BUY => buy_name(),
            OrderSide::SELL => sell_name(),
        }
    }

    /// The side spelled by `s`, ignoring ASCII case.
    pub open spec fn parse_spec(s: Seq<char>) -> Option<OrderSide> {
        if matches_ignore_case(s, buy_name()) {
            Some(OrderSide::BUY)
        } else if matches_ignore_case(s, sell_name()) {
            Some(OrderSide::SELL)
        } else {
            None
        }
    }

    /// Parses a side name, ignoring ASCII case.
    pub fn parse(s: &str) -> (r: Option<OrderSide>)
        ensures
            r == OrderSide::parse_spec(s@),
    {
        let buy = "BUY";
        let sell = "SELL";
        proof {
            reveal_strlit("BUY");
            reveal_strlit("SELL");
        }
        if eq_ignore_case(s, buy) {
            Some(OrderSide::BUY)
        } else if eq_ignore_case(s, sell) {
            Some(OrderSide::SELL)
        } else {
            None
        }
    }

    /// The variant's name.
    pub fn as_str(&self) -> (r: &'static str)
        ensures
            r@ == self.name(),
    {
        match self {
            OrderSide::BUY => {
                proof {
                    reveal_strlit("BUY");
                }
                "BUY"
            },
            OrderSide::SELL => {
                proof {
                    reveal_strlit("SELL");
                }
                "SELL"
            },
        }
    }
}

impl OrderType {
    /// The variant's name.
    pub open spec fn name(self) -> Seq<char> {
        match self {
            OrderType::LIMIT => limit_name(),
            OrderType::MARKET => market_name(),
        }
    }

    /// The order type spelled by `s`, ignoring ASCII case.
    pub open spec fn parse_spec(s: Seq<char>) -> Option<OrderType> {
        if matches_ignore_case(s, limit_name()) {
            Some(OrderType::LIMIT)
        } else if matches_ignore_case(s, market_name()) {
            Some(OrderType::MARKET)
        } else {
            None
        }
    }

    /// Parses an order type name, ignoring ASCII case.
    pub fn parse(s: &str) -> (r: Option<OrderType>)
        ensures
            r == OrderType::parse_spec(s@),
    {
        let limit = "LIMIT";
        let market = "MARKET";
        proof {
            reveal_strlit("LIMIT");
            reveal_strlit("MARKET");
        }
        if eq_ignore_case(s, limit) {
            Some(OrderType::LIMIT)
        } else if eq_ignore_case(s, market) {
            Some(OrderType::MARKET)
        } else {
            None
        }
    }

    /// The variant's name.
    pub fn as_str(&self) -> (r: &'static str)
        ensures
            r@ == self.name(),
    {
        match self {
            OrderType::LIMIT => {
                proof {
                    reveal_strlit("LIMIT");
                }
                "LIMIT"
            },
            OrderType::MARKET => {
                proof {
                    reveal_strlit("MARKET");
                }
                "MARKET"
            },
        }
    }
}

impl OrderStatus {
    /// The variant's name.
    pub open spec fn name(self) -> Seq<char> {
        match self {
            OrderStatus::RECEIVED => seq!['R', 'E', 'C', 'E', 'I', 'V', 'E', 'D'],
            OrderStatus::OPEN => seq!['O', 'P', 'E', 'N'],
            OrderStatus::DONE => seq!['D', 'O', 'N', 'E'],
            OrderStatus::REJECTED => seq!['R', 'E', 'J', 'E', 'C', 'T', 'E', 'D'],
            OrderStatus::FILLED => seq!['F', 'I', 'L', 'L', 'E', 'D'],
            OrderStatus::CANCELLED => seq!['C', 'A', 'N', 'C', 'E', 'L', 'L', 'E', 'D'],
        }
    }

    /// The variant's name.
    pub fn as_str(&self) -> (r: &'static str)
        ensures
            r@ == self.name(),
    {
        match self {
            OrderStatus::RECEIVED => {
                proof {
                    reveal_strlit("RECEIVED");
                }
                "RECEIVED"
            },
            OrderStatus::OPEN => {
                proof {
                    reveal_strlit("OPEN");
                }
                "OPEN"
            },
            OrderStatus::DONE => {
                proof {
                    reveal_strlit("DONE");
                }
                "DONE"
            },
            OrderStatus::REJECTED => {
                proof {
                    reveal_strlit("REJECTED");
                }
                "REJECTED"
            },
            OrderStatus::FILLED => {
                proof {
                    reveal_strlit("FILLED");
                }
                "FILLED"
            },
            OrderStatus::CANCELLED => {
                proof {
                    reveal_strlit("CANCELLED");
                }
                "CANCELLED"
            },
        }
    }
}

/// Reading a side's name gives the side back, in any ASCII case of its letters.
pub proof fn side_name_reads_back(side: OrderSide, s: Seq<char>)
    requires
        matches_ignore_case(s, side.name()),
    ensures
        OrderSide::parse_spec(s) == Some(side),
{
    if side == OrderSide::SELL {
        assert(s.len() != buy_name().len());
    }
}

/// Reading an order type's name gives the type back, in any ASCII case of its letters.
pub proof fn type_name_reads_back(order_type: OrderType, s: Seq<char>)
    requires
        matches_ignore_case(s, order_type.name()),
    ensures
        OrderType::parse_spec(s) == Some(order_type),
{
    if order_type == OrderType::MARKET {
        assert(s.len() != limit_name().len());
    }
}

} // verus!
