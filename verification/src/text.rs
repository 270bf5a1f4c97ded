//! Textual form of a list of numbers.
//!
//! The elements are rendered in decimal and joined by the literal
//! separator `" -> "`; the empty list renders as the empty text.
use vstd::prelude::*;
use vstd::string::StringExecFns;

use crate::LinkedList;

verus! {

/// The decimal digit character for `d`.
pub open spec fn digit_char(d: int) -> char {
    if d == 0 {
        '0'
    } else if d == 1 {
        '1'
    } else if d == 2 {
        '2'
    } else if d == 3 {
        '3'
    } else if d == 4 {
        '4'
    } else if d == 5 {
        '5'
    } else if d == 6 {
        '6'
    } else if d == 7 {
        '7'
    } else if d == 8 {
        '8'
    } else {
        '9'
    }
}

/// The decimal rendering of `n`, most significant digit first.
pub open spec fn decimal(n: int) -> Seq<char>
    recommends
        n >= 0,
    decreases n,
{
    if n < 10 {
        seq![digit_char(n)]
    } else {
        decimal(n / 10).push(digit_char(n % 10))
    }
}

/// The separator between rendered elements.
pub open spec fn sep() -> Seq<char> {
    seq![' ', '-', '>', ' ']
}

/// The textual form of a sequence of numbers: their decimal renderings
/// joined by the separator; the empty sequence renders as the empty text.
pub open spec fn rendered(s: Seq<u32>) -> Seq<char>
    decreases s.len(),
{
    if s.len() == 0 {
        Seq::empty()
    } else if s.len() == 1 {
        decimal(s[0] as int)
    } else {
        rendered(s.drop_last()) + sep() + decimal(s.last() as int)
    }
}

/// Appends the decimal rendering of `x` to `out`.
fn push_decimal(out: &mut String, x: u32)
    ensures
        final(out)@ == old(out)@ + decimal(x as int),
    decreases x,
{
    if x >= 10 {
        push_decimal(out, x / 10);
    }
    let d = x % 10;
    match d {
        0 => {
            proof {
                reveal_strlit("0");
                assert("0"@ =~= seq![digit_char(0)]);
            }
            out.append("0");
        },
        1 => {
            proof {
                reveal_strlit("1");
                assert("1"@ =~= seq![digit_char(1)]);
            }
            out.append("1");
        },
        2 => {
            proof {
                reveal_strlit("2");
                assert("2"@ =~= seq![digit_char(2)]);
            }
            out.append("2");
        },
        3 => {
            proof {
                reveal_strlit("3");
                assert("3"@ =~= seq![digit_char(3)]);
            }
            out.append("3");
        },
        4 => {
            proof {
                reveal_strlit("4");
                assert("4"@ =~= seq![digit_char(4)]);
            }
            out.append("4");
        },
        5 => {
            proof {
                reveal_strlit("5");
                assert("5"@ =~= seq![digit_char(5)]);
            }
            out.append("5");
        },
        6 => {
            proof {
                reveal_strlit("6");
                assert("6"@ =~= seq![digit_char(6)]);
            }
            out.append("6");
        },
        7 => {
            proof {
                reveal_strlit("7");
                assert("7"@ =~= seq![digit_char(7)]);
            }
            out.append("7");
        },
        8 => {
            proof {
                reveal_strlit("8");
                assert("8"@ =~= seq![digit_char(8)]);
            }
            out.append("8");
        },
        _ => {
            proof {
                assert(d == 9);
                reveal_strlit("9");
                assert("9"@ =~= seq![digit_char(9)]);
            }
            out.append("9");
        },
    }
    proof {
        if x < 10 {
            assert(decimal(x as int) == seq![digit_char(x as int)]);
            assert(out@ =~= old(out)@ + decimal(x as int));
        } else {
            assert(decimal(x as int) == decimal(x as int / 10).push(digit_char(x as int % 10)));
            assert(out@ =~= old(out)@ + decimal(x as int));
        }
    }
}

impl LinkedList<u32> {
    /// Returns the textual form of the list: the elements in decimal, from
    /// head to tail, joined by `" -> "`; the empty list gives the empty
    /// text.
    pub fn to_text(&self) -> (r: String)
        requires
            self.wf(),
        ensures
            r@ == rendered(self@),
    {
        let mut out = String::new();
        let n = self.len();
        let mut cur: Option<usize> = self.head;
        let mut k: usize = 0;
        while k < n
            invariant
                self.wf(),
                n == self@.len(),
                0 <= k <= n,
                out@ == rendered(self@.take(k as int)),
                cur == (if (k as int) < self@.len() {
                    Some(self.slot_seq()[k as int])
                } else {
                    None::<usize>
                }),
            decreases n - k,
        {
            let i = cur.unwrap();
            proof {
                assert(self.slot_ok(i));
                assert(self.node_at(k as int) == self.node_in(i));
                assert(self.node_at(k as int).data == self@[k as int]);
            }
            let nd = crate::node_ref(&self.nodes, i);
            if k > 0 {
                proof {
                    reveal_strlit(" -> ");
                    assert(" -> "@ =~= sep());
                }
                out.append(" -> ");
            }
            push_decimal(&mut out, nd.data);
            cur = nd.next;
            let ghost k0 = k as int;
            k = k + 1;
            proof {
                let t = self@.take(k0 + 1);
                assert(t.last() == self@[k0]);
                assert(t.drop_last() =~= self@.take(k0));
                if k0 == 0 {
                    assert(rendered(self@.take(0)) =~= Seq::<char>::empty());
                    assert(out@ =~= rendered(t));
                } else {
                    assert(rendered(t) == rendered(t.drop_last()) + sep() + decimal(
                        t.last() as int,
                    ));
                    assert(out@ =~= rendered(t));
                }
            }
        }
        proof {
            assert(self@.take(n as int) =~= self@);
        }
        out
    }
}

} // verus!
