//! Textual rendering of catalog entries: a canonical shape as its
//! comma-separated list of "x,y" cell coordinates, and the name of a
//! symmetry label. These strings key the exported catalog.

use vstd::prelude::*;
use vstd::string::StringExecFns;

use crate::shape::Polyhex;
use crate::symmetry::PolyhexSymmetryGroup;

verus! {

/// The decimal digit character for a value below ten.
pub open spec fn digit_char(d: int) -> char {
    if d == 0 {
        '0'
    } else if d == 1 {
        '1'
    } else if d == 2 {
        '2'
    } else if d == 3 {
        '3'
    } else if d == 4 {
        '4'
    } else if d == 5 {
        '5'
    } else if d == 6 {
        '6'
    } else if d == 7 {
        '7'
    } else if d == 8 {
        '8'
    } else {
        '9'
    }
}

/// The decimal rendering of a non-negative value.
pub open spec fn dec_of_nat(n: nat) -> Seq<char>
    decreases n,
{
    if n < 10 {
        seq![digit_char(n as int)]
    } else {
        dec_of_nat(n / 10).push(digit_char((n % 10) as int))
    }
}

/// The decimal rendering of a signed value: a minus sign before the
/// magnitude when negative.
pub open spec fn dec_of_int(n: int) -> Seq<char> {
    if n < 0 {
        seq!['-'] + dec_of_nat((-n) as nat)
    } else {
        dec_of_nat(n as nat)
    }
}

/// One cell as "x,y".
pub open spec fn coord_text(p: (int, int)) -> Seq<char> {
    dec_of_int(p.0) + seq![','] + dec_of_int(p.1)
}

/// A shape as its cells in order, comma-separated.
pub open spec fn shape_text(s: Seq<(int, int)>) -> Seq<char>
    decreases s.len(),
{
    if s.len() == 0 {
        Seq::empty()
    } else if s.len() == 1 {
        coord_text(s[0])
    } else {
        shape_text(s.drop_last()) + seq![','] + coord_text(s.last())
    }
}

/// One decimal digit as text.
fn digit_str(d: u32) -> (r: &'static str)
    requires
        d < 10,
    ensures
        r@ == seq![digit_char(d as int)],
{
    proof {
        reveal_strlit("0");
        reveal_strlit("1");
        reveal_strlit("2");
        reveal_strlit("3");
        reveal_strlit("4");
        reveal_strlit("5");
        reveal_strlit("6");
        reveal_strlit("7");
        reveal_strlit("8");
        reveal_strlit("9");
    }
    let r = if d == 0 {
        "0"
    } else if d == 1 {
        "1"
    } else if d == 2 {
        "2"
    } else if d == 3 {
        "3"
    } else if d == 4 {
        "4"
    } else if d == 5 {
        "5"
    } else if d == 6 {
        "6"
    } else if d == 7 {
        "7"
    } else if d == 8 {
        "8"
    } else {
        "9"
    };
    proof {
        assert(r@ =~= seq![digit_char(d as int)]);
    }
    r
}

/// Append the decimal rendering of a non-negative value.
fn push_dec_u32(s: &mut String, n: u32)
    ensures
        final(s)@ == old(s)@ + dec_of_nat(n as nat),
    decreases n,
{
    if n < 10 {
        s.append(digit_str(n));
        proof {
            assert(final(s)@ =~= old(s)@ + dec_of_nat(n as nat));
        }
    } else {
        push_dec_u32(s, n / 10);
        s.append(digit_str(n % 10));
        proof {
            assert(final(s)@ =~= old(s)@ + dec_of_nat(n as nat));
        }
    }
}

/// Append the decimal rendering of a signed value.
fn push_dec_i32(s: &mut String, n: i32)
    ensures
        final(s)@ == old(s)@ + dec_of_int(n as int),
{
    proof {
        reveal_strlit("-");
    }
    if n < 0 {
        s.append("-");
        let m: u32 = (-(n as i64)) as u32;
        proof {
            assert(m as nat == (-(n as int)) as nat);
        }
        push_dec_u32(s, m);
        proof {
            assert(final(s)@ =~= old(s)@ + dec_of_int(n as int));
        }
    } else {
        push_dec_u32(s, n as u32);
        proof {
            assert(final(s)@ =~= old(s)@ + dec_of_int(n as int));
        }
    }
}

impl Polyhex {
    /// This shape rendered as its ordered, comma-separated list of
    /// "x,y" cell coordinates: the catalog key of a canonical shape.
    pub fn key_string(&self) -> (r: String)
        ensures
            r@ == shape_text(self@),
    {
        proof {
            reveal_strlit(",");
        }
        let mut r = String::new();
        let n = self.0.len();
        let mut i: usize = 0;
        while i < n
            invariant
                i <= n,
                n == self.0.len(),
                r@ == shape_text(self@.take(i as int)),
            decreases n - i,
        {
            let c = self.0[i];
            proof {
                reveal_strlit(",");
                assert(self@[i as int] == (c.0 as int, c.1 as int));
            }
            if i != 0 {
                r.append(",");
            }
            push_dec_i32(&mut r, c.0);
            r.append(",");
            push_dec_i32(&mut r, c.1);
            proof {
                assert(self@.take(i + 1int).drop_last() =~= self@.take(i as int));
                assert(self@.take(i + 1int).last() == self@[i as int]);
                if i == 0 {
                    assert(shape_text(self@.take(0int)) =~= Seq::<char>::empty());
                    assert(r@ =~= coord_text(self@[0]));
                    assert(r@ =~= shape_text(self@.take(1int)));
                } else {
                    assert(r@ =~= shape_text(self@.take(i as int)) + seq![','] + coord_text(
                        self@[i as int],
                    ));
                    assert(r@ =~= shape_text(self@.take(i + 1int)));
                }
            }
            i += 1;
        }
        proof {
            assert(self@.take(n as int) =~= self@);
        }
        r
    }
}

/// The textual name of a symmetry label, matching the catalog format.
pub open spec fn label_text(g: PolyhexSymmetryGroup) -> Seq<char> {
    match g {
        PolyhexSymmetryGroup::Asymmetric => "None"@,
        PolyhexSymmetryGroup::Mirror0 => "Mirror0"@,
        PolyhexSymmetryGroup::Mirror30 => "Mirror30"@,
        PolyhexSymmetryGroup::Rotation2Fold => "Rotation2Fold"@,
        PolyhexSymmetryGroup::Rotation2FoldMirrorAll => "Rotation2FoldMirrorAll"@,
        PolyhexSymmetryGroup::Rotation3Fold => "Rotation3Fold"@,
        PolyhexSymmetryGroup::Rotation3FoldMirror0 => "Rotation3FoldMirror0"@,
        PolyhexSymmetryGroup::Rotation3FoldMirror30 => "Rotation3FoldMirror30"@,
        PolyhexSymmetryGroup::Rotation6Fold => "Rotation6Fold"@,
        PolyhexSymmetryGroup::All => "All"@,
    }
}

impl PolyhexSymmetryGroup {
    /// This label's name.
    pub fn name(&self) -> (r: &'static str)
        ensures
            r@ == label_text(*self),
    {
        match self {
            PolyhexSymmetryGroup::Asymmetric => "None",
            PolyhexSymmetryGroup::Mirror0 => "Mirror0",
            PolyhexSymmetryGroup::Mirror30 => "Mirror30",
            PolyhexSymmetryGroup::Rotation2Fold => "Rotation2Fold",
            PolyhexSymmetryGroup::Rotation2FoldMirrorAll => "Rotation2FoldMirrorAll",
            PolyhexSymmetryGroup::Rotation3Fold => "Rotation3Fold",
            PolyhexSymmetryGroup::Rotation3FoldMirror0 => "Rotation3FoldMirror0",
            PolyhexSymmetryGroup::Rotation3FoldMirror30 => "Rotation3FoldMirror30",
            PolyhexSymmetryGroup::Rotation6Fold => "Rotation6Fold",
            PolyhexSymmetryGroup::All => "All",
        }
    }
}

} // verus!
