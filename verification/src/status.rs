//! The lifecycle tag of a todo record and its integer encoding.

use vstd::prelude::*;

verus! {

/// Lifecycle tag of a todo record, stored in the file as the integer
/// tag given by [`TodoStatus::spec_code`].
#[derive(Clone, Copy, Debug, PartialEq, Eq, Structural)]
pub enum TodoStatus {
    Todo,
    Doing,
    Doit,
}

impl TodoStatus {
    /// The integer tag under which this status is stored.
    pub open spec fn spec_code(self) -> int {
        match self {
            TodoStatus::Todo => 1,
            TodoStatus::Doing => 2,
            TodoStatus::Doit => 3,
        }
    }

    /// The single decimal digit of the stored integer tag.
    pub open spec fn spec_digit(self) -> char {
        match self {
            TodoStatus::Todo => '1',
            TodoStatus::Doing => '2',
            TodoStatus::Doit => '3',
        }
    }

    /// The status stored under the integer tag `n`, if `n` is one.
    pub open spec fn spec_from_int(n: int) -> Option<TodoStatus> {
        if n == 1 {
            Some(TodoStatus::Todo)
        } else if n == 2 {
            Some(TodoStatus::Doing)
        } else if n == 3 {
            Some(TodoStatus::Doit)
        } else {
            None
        }
    }

    /// The integer tag under which this status is stored.
    pub fn code(self) -> (n: usize)
        ensures
            n == self.spec_code(),
    {
        match self {
            TodoStatus::Todo => 1,
            TodoStatus::Doing => 2,
            TodoStatus::Doit => 3,
        }
    }

    /// The status stored under the integer tag `n`, if `n` is one.
    pub fn from_usize(n: usize) -> (r: Option<TodoStatus>)
        ensures
            r == TodoStatus::spec_from_int(n as int),
    {
        match n {
            1 => Some(TodoStatus::Todo),
            2 => Some(TodoStatus::Doing),
            3 => Some(TodoStatus::Doit),
            _ => None,
        }
    }

    /// The digit of the stored integer tag, as a one-character string.
    pub fn digit_str(self) -> (r: &'static str)
        ensures
            r@ == seq![self.spec_digit()],
    {
        proof {
            reveal_strlit("1");
            reveal_strlit("2");
            reveal_strlit("3");
        }
        let r = match self {
            TodoStatus::Todo => "1",
            TodoStatus::Doing => "2",
            TodoStatus::Doit => "3",
        };
        proof {
            assert(r@ =~= seq![self.spec_digit()]);
        }
        r
    }

    /// The name of this status.
    pub open spec fn spec_label(self) -> Seq<char> {
        match self {
            TodoStatus::Todo => "Todo"@,
            TodoStatus::Doing => "Doing"@,
            TodoStatus::Doit => "Doit"@,
        }
    }

    /// The name of this status, for display.
    pub fn label(self) -> (r: &'static str)
        ensures
            r@ == self.spec_label(),
    {
        match self {
            TodoStatus::Todo => "Todo",
            TodoStatus::Doing => "Doing",
            TodoStatus::Doit => "Doit",
        }
    }
}

/// The numeric value of the decimal digit `c`, if it is one.
pub open spec fn spec_digit_value(c: char) -> Option<int> {
    if c == '0' {
        Some(0)
    } else if c == '1' {
        Some(1)
    } else if c == '2' {
        Some(2)
    } else if c == '3' {
        Some(3)
    } else if c == '4' {
        Some(4)
    } else if c == '5' {
        Some(5)
    } else if c == '6' {
        Some(6)
    } else if c == '7' {
        Some(7)
    } else if c == '8' {
        Some(8)
    } else if c == '9' {
        Some(9)
    } else {
        None
    }
}

/// `s` is a nonempty run of decimal digits.
pub open spec fn is_digit_seq(s: Seq<char>) -> bool {
    s.len() > 0 && forall|i: int| 0 <= i < s.len() ==> spec_digit_value(#[trigger] s[i]) is Some
}

/// The numeric value of a run of decimal digits, most significant first.
/// Characters that are not digits count as zero; [`is_digit_seq`] rules
/// them out wherever this value is relied on.
pub open spec fn spec_digits_value(s: Seq<char>) -> int
    decreases s.len(),
{
    if s.len() == 0 {
        0
    } else {
        spec_digits_value(s.drop_last()) * 10 + (match spec_digit_value(s.last()) {
            Some(d) => d,
            None => 0,
        })
    }
}

/// The status encoded by the text of a status field: the field must be a
/// nonempty run of decimal digits whose value is a stored integer tag.
pub open spec fn spec_parse_status(s: Seq<char>) -> Option<TodoStatus> {
    if is_digit_seq(s) {
        TodoStatus::spec_from_int(spec_digits_value(s))
    } else {
        None
    }
}

/// The numeric value of the decimal digit `c`, if it is one.
fn digit_value(c: char) -> (r: Option<usize>)
    ensures
        match r {
            Some(d) => spec_digit_value(c) == Some(d as int),
            None => spec_digit_value(c) is None,
        },
{
    match c {
        '0' => Some(0),
        '1' => Some(1),
        '2' => Some(2),
        '3' => Some(3),
        '4' => Some(4),
        '5' => Some(5),
        '6' => Some(6),
        '7' => Some(7),
        '8' => Some(8),
        '9' => Some(9),
        _ => None,
    }
}

/// Parse the text of a status field: a nonempty run of decimal digits
/// whose value is a stored integer tag.
pub fn parse_status(s: &str) -> (r: Option<TodoStatus>)
    ensures
        r == spec_parse_status(s@),
{
    let n = s.unicode_len();
    if n == 0 {
        return None;
    }
    // `acc` follows the value of the digits read so far, saturated at 4:
    // any larger value can no longer be a stored integer tag.
    let mut acc: usize = 0;
    let mut i: usize = 0;
    while i < n
        invariant
            0 <= i <= n,
            n == s@.len(),
            forall|j: int| 0 <= j < i ==> spec_digit_value(#[trigger] s@[j]) is Some,
            acc == if spec_digits_value(s@.subrange(0, i as int)) <= 3 {
                spec_digits_value(s@.subrange(0, i as int))
            } else {
                4
            },
            spec_digits_value(s@.subrange(0, i as int)) >= 0,
        decreases n - i,
    {
        let c = s.get_char(i);
        match digit_value(c) {
            None => {
                assert(!is_digit_seq(s@));
                return None;
            },
            Some(d) => {
                proof {
                    let pre = s@.subrange(0, i as int);
                    let next = s@.subrange(0, i as int + 1);
                    assert(next.drop_last() =~= pre);
                    assert(next.last() == s@[i as int]);
                }
                let wide = acc * 10 + d;
                acc = if wide <= 3 {
                    wide
                } else {
                    4
                };
            },
        }
        i = i + 1;
    }
    proof {
        assert(s@.subrange(0, n as int) =~= s@);
        assert(is_digit_seq(s@));
        if spec_digits_value(s@) > 3 {
            assert(acc == 4);
        }
    }
    TodoStatus::from_usize(acc)
}

} // verus!
