//! Year-expression filters: small numeric comparisons that a search query
//! can attach, such as restricting results to books published after a year.

use vstd::prelude::*;

use crate::codec::digit_val;
use crate::codec::is_digit;
use crate::codec::parse_num_loop;
use crate::codec::str_chars;

verus! {

/// Whether a character can start a comparison operator.
pub open spec fn is_op_char(c: char) -> bool {
    c == '>' || c == '<' || c == '=' || c == '!'
}

/// The comparison a matched operator spelling and value denote, when the
/// value fits a 32-bit number; an oversized value matches but denotes
/// nothing.
pub open spec fn scanned_cmp(op: Seq<char>, val: nat) -> Option<Comparison> {
    if val > i32::MAX as nat {
        None
    } else {
        Comparison::spelled(op, val as i32)
    }
}

/// One scanner step at the head of the text: the operator spelling, the
/// value after it, and the characters consumed.  A one-character operator
/// directly followed by digits wins over a two-character one.
pub open spec fn scan_step(s: Seq<char>) -> Option<(Seq<char>, nat, int)> {
    if s.len() >= 2 && is_op_char(s[0]) && is_digit(s[1]) {
        let r = parse_num_loop(s.skip(1), 0);
        Some((seq![s[0]], r.0, s.len() - r.1.len()))
    } else if s.len() >= 3 && (s[0] == '>' || s[0] == '<') && s[1] == '=' && is_digit(s[2]) {
        let r = parse_num_loop(s.skip(2), 0);
        Some((seq![s[0], '='], r.0, s.len() - r.1.len()))
    } else {
        None
    }
}

/// Every comparison written in the text, scanned left to right.
pub open spec fn scan_spec(s: Seq<char>) -> Seq<Comparison>
    decreases s.len(),
{
    if s.len() == 0 {
        Seq::empty()
    } else {
        match scan_step(s) {
            Some(st) => {
                let used: int = if st.2 < 1 {
                    1
                } else if st.2 > s.len() {
                    s.len() as int
                } else {
                    st.2
                };
                (match scanned_cmp(st.0, st.1) {
                    Some(c) => seq![c],
                    None => Seq::empty(),
                }) + scan_spec(s.skip(used))
            },
            None => scan_spec(s.drop_first()),
        }
    }
}


/// What `spelled` makes of a one-character operator.
proof fn lemma_spelled_single(c: char, n: i32)
    requires
        is_op_char(c),
    ensures
        c == '>' ==> Comparison::spelled(seq![c], n) == Some(Comparison::GreaterThan(n)),
        c == '<' ==> Comparison::spelled(seq![c], n) == Some(Comparison::LessThan(n)),
        c == '=' ==> Comparison::spelled(seq![c], n) == Some(Comparison::Equal(n)),
        c == '!' ==> Comparison::spelled(seq![c], n) == Some(Comparison::NotEqual(n)),
{
    let s1 = seq![c];
    assert(s1.len() == 1);
    assert(s1[0] == c);
    assert(s1 != seq!['>', '=']) by {
        if s1 == seq!['>', '='] {
            assert(s1.len() == seq!['>', '='].len());
        }
    }
    assert(s1 != seq!['<', '=']) by {
        if s1 == seq!['<', '='] {
            assert(s1.len() == seq!['<', '='].len());
        }
    }
    if c == '>' {
        assert(s1 =~= seq!['>']);
    } else {
        assert(s1 != seq!['>']) by {
            if s1 == seq!['>'] {
                assert(s1[0] == seq!['>'][0]);
                assert(seq!['>'][0] == '>');
            }
        }
    }
    if c == '<' {
        assert(s1 =~= seq!['<']);
    } else {
        assert(s1 != seq!['<']) by {
            if s1 == seq!['<'] {
                assert(s1[0] == seq!['<'][0]);
                assert(seq!['<'][0] == '<');
            }
        }
    }
    if c == '=' {
        assert(s1 =~= seq!['=']);
    } else {
        assert(s1 != seq!['=']) by {
            if s1 == seq!['='] {
                assert(s1[0] == seq!['='][0]);
                assert(seq!['='][0] == '=');
            }
        }
    }
    if c == '!' {
        assert(s1 =~= seq!['!']);
    } else {
        assert(s1 != seq!['!']) by {
            if s1 == seq!['!'] {
                assert(s1[0] == seq!['!'][0]);
                assert(seq!['!'][0] == '!');
            }
        }
    }
}

/// What `spelled` makes of a two-character operator.
proof fn lemma_spelled_double(c: char, n: i32)
    requires
        c == '>' || c == '<',
    ensures
        c == '>' ==> Comparison::spelled(seq![c, '='], n) == Some(
            Comparison::GreaterThanEqual(n),
        ),
        c == '<' ==> Comparison::spelled(seq![c, '='], n) == Some(Comparison::LessThanEqual(n)),
{
    let s2 = seq![c, '='];
    assert(s2.len() == 2);
    assert(s2[0] == c);
    assert(s2[1] == '=');
    assert(s2 != seq!['>']) by {
        if s2 == seq!['>'] {
            assert(s2.len() == seq!['>'].len());
        }
    }
    assert(s2 != seq!['<']) by {
        if s2 == seq!['<'] {
            assert(s2.len() == seq!['<'].len());
        }
    }
    assert(s2 != seq!['=']) by {
        if s2 == seq!['='] {
            assert(s2.len() == seq!['='].len());
        }
    }
    assert(s2 != seq!['!']) by {
        if s2 == seq!['!'] {
            assert(s2.len() == seq!['!'].len());
        }
    }
    if c == '>' {
        assert(s2 =~= seq!['>', '=']);
        assert(s2 != seq!['<', '=']) by {
            if s2 == seq!['<', '='] {
                assert(s2[0] == seq!['<', '='][0]);
                assert(seq!['<', '='][0] == '<');
            }
        }
    } else {
        assert(s2 =~= seq!['<', '=']);
        assert(s2 != seq!['>', '=']) by {
            if s2 == seq!['>', '='] {
                assert(s2[0] == seq!['>', '='][0]);
                assert(seq!['>', '='][0] == '>');
            }
        }
    }
}

/// One comparison against a fixed number.
pub enum Comparison {
    GreaterThan(i32),
    GreaterThanEqual(i32),
    LessThan(i32),
    LessThanEqual(i32),
    Equal(i32),
    NotEqual(i32),
}

impl Comparison {
    /// What this comparison says about a number.
    pub open spec fn holds_for(self, number: int) -> bool {
        match self {
            Comparison::GreaterThan(n) => number > n,
            Comparison::GreaterThanEqual(n) => number >= n,
            Comparison::LessThan(n) => number < n,
            Comparison::LessThanEqual(n) => number <= n,
            Comparison::Equal(n) => number == n,
            Comparison::NotEqual(n) => number != n,
        }
    }

    /// The comparison an operator spelling denotes, if any.
    pub open spec fn spelled(comp: Seq<char>, number: i32) -> Option<Comparison> {
        if comp == seq!['>'] {
            Some(Comparison::GreaterThan(number))
        } else if comp == seq!['>', '='] {
            Some(Comparison::GreaterThanEqual(number))
        } else if comp == seq!['<'] {
            Some(Comparison::LessThan(number))
        } else if comp == seq!['<', '='] {
            Some(Comparison::LessThanEqual(number))
        } else if comp == seq!['='] {
            Some(Comparison::Equal(number))
        } else if comp == seq!['!'] {
            Some(Comparison::NotEqual(number))
        } else {
            None
        }
    }

    /// Builds the comparison an operator spelling denotes.
    pub fn new(comp: &str, number: i32) -> (r: Option<Comparison>)
        ensures
            r == Comparison::spelled(comp@, number),
    {
        let n = comp.unicode_len();
        if n == 1 {
            let c = comp.get_char(0);
            proof {
                assert(comp@ =~= seq![comp@[0]]);
            }
            match c {
                '>' => Some(Comparison::GreaterThan(number)),
                '<' => Some(Comparison::LessThan(number)),
                '=' => Some(Comparison::Equal(number)),
                '!' => Some(Comparison::NotEqual(number)),
                _ => {
                    proof {
                        assert(comp@ != seq!['>'] && comp@ != seq!['<'] && comp@ != seq!['=']
                            && comp@ != seq!['!']);
                        assert(comp@.len() != 2);
                    }
                    None
                },
            }
        } else if n == 2 {
            let c0 = comp.get_char(0);
            let c1 = comp.get_char(1);
            proof {
                assert(comp@ =~= seq![comp@[0], comp@[1]]);
            }
            if c1 == '=' && c0 == '>' {
                Some(Comparison::GreaterThanEqual(number))
            } else if c1 == '=' && c0 == '<' {
                Some(Comparison::LessThanEqual(number))
            } else {
                proof {
                    assert(comp@ != seq!['>', '='] && comp@ != seq!['<', '=']);
                    assert(comp@.len() != 1);
                }
                None
            }
        } else {
            proof {
                assert(comp@.len() != 1 && comp@.len() != 2);
            }
            None
        }
    }

    /// Every comparison written in free text, scanned left to right: an
    /// operator directly followed by digits forms one; a value too large
    /// for 32 bits is matched but denotes nothing.
    pub fn from_string(string: &str) -> (r: Vec<Comparison>)
        ensures
            r@ == scan_spec(string@),
    {
        let v = str_chars(string);
        let mut out: Vec<Comparison> = Vec::new();
        let mut pos: usize = 0;
        proof {
            assert(string@.skip(0) =~= string@);
            assert(out@ + scan_spec(string@) =~= scan_spec(string@));
        }
        while pos < v.len()
            invariant
                v@ == string@,
                pos <= v@.len(),
                scan_spec(string@) == out@ + scan_spec(string@.skip(pos as int)),
            decreases v@.len() - pos,
        {
            let ghost s = string@.skip(pos as int);
            proof {
                assert(s[0] == string@[pos as int]);
                if pos + 1 < v@.len() {
                    assert(s[1] == string@[pos as int + 1]);
                }
                if pos + 2 < v@.len() {
                    assert(s[2] == string@[pos as int + 2]);
                }
            }
            let c = v[pos];
            let single = (c == '>' || c == '<' || c == '=' || c == '!') && pos + 1 < v.len()
                && '0' <= v[pos + 1] && v[pos + 1] <= '9';
            let double = !single && (c == '>' || c == '<') && pos + 1 < v.len() && pos + 2
                < v.len() && v[pos + 1] == '=' && '0' <= v[pos + 2] && v[pos + 2] <= '9';
            if single || double {
                let ds = if single {
                    pos + 1
                } else {
                    pos + 2
                };
                let mut j = ds;
                let mut acc: u64 = 0;
                let mut sat = false;
                let ghost mut g: nat = 0nat;
                proof {
                    assert(parse_num_loop(string@.skip(ds as int), 0) == parse_num_loop(
                        string@.skip(j as int),
                        g,
                    ));
                }
                while j < v.len() && '0' <= v[j] && v[j] <= '9'
                    invariant
                        v@ == string@,
                        ds <= j <= v@.len(),
                        parse_num_loop(string@.skip(ds as int), 0) == parse_num_loop(
                            string@.skip(j as int),
                            g,
                        ),
                        sat <==> g > i32::MAX as nat,
                        !sat ==> acc == g,
                    decreases v@.len() - j,
                {
                    proof {
                        assert(string@.skip(j as int).first() == string@[j as int]);
                        assert(string@.skip(j as int).drop_first() =~= string@.skip(j as int + 1));
                    }
                    let d = (v[j] as u32) - 48;
                    proof {
                        assert(('0' as u32) == 48);
                        assert(d == digit_val(string@[j as int]));
                        assert(d < 10);
                        g = g * 10 + digit_val(string@[j as int]);
                    }
                    if !sat {
                        let nx = acc * 10 + (d as u64);
                        proof {
                            assert(i32::MAX as nat == 2147483647);
                        }
                        if nx > 2147483647u64 {
                            sat = true;
                        } else {
                            acc = nx;
                        }
                    }
                    j = j + 1;
                }
                proof {
                    if j < v@.len() {
                        assert(!is_digit(string@[j as int]));
                        assert(string@.skip(j as int).first() == string@[j as int]);
                    }
                    assert(parse_num_loop(string@.skip(j as int), g) == (
                        g,
                        string@.skip(j as int),
                    ));
                    if single {
                        assert(s.skip(1) =~= string@.skip(ds as int));
                        assert(s.len() >= 2 && is_op_char(s[0]) && is_digit(s[1]));
                        assert(scan_step(s) == Some(
                            (seq![s[0]], g, s.len() - string@.skip(j as int).len()),
                        ));
                    } else {
                        assert(s.skip(2) =~= string@.skip(ds as int));
                        assert(!(s.len() >= 2 && is_op_char(s[0]) && is_digit(s[1])));
                        assert(s.len() >= 3 && (s[0] == '>' || s[0] == '<') && s[1] == '='
                            && is_digit(s[2]));
                        assert(scan_step(s) == Some(
                            (seq![s[0], '='], g, s.len() - string@.skip(j as int).len()),
                        ));
                    }
                    assert(s.len() - string@.skip(j as int).len() == j - pos);
                    assert(s.skip(j - pos as int) =~= string@.skip(j as int));
                }
                if !sat {
                    let cmp = if single {
                        if c == '>' {
                            Comparison::GreaterThan(acc as i32)
                        } else if c == '<' {
                            Comparison::LessThan(acc as i32)
                        } else if c == '=' {
                            Comparison::Equal(acc as i32)
                        } else {
                            Comparison::NotEqual(acc as i32)
                        }
                    } else {
                        if c == '>' {
                            Comparison::GreaterThanEqual(acc as i32)
                        } else {
                            Comparison::LessThanEqual(acc as i32)
                        }
                    };
                    proof {
                        assert(g <= i32::MAX as nat);
                        assert(acc == g);
                        assert(g as i32 == acc as i32);
                        if single {
                            lemma_spelled_single(s[0], g as i32);
                            assert(scanned_cmp(seq![s[0]], g) == Some(cmp));
                        } else {
                            lemma_spelled_double(s[0], g as i32);
                            assert(scanned_cmp(seq![s[0], '='], g) == Some(cmp));
                        }
                        assert(scan_spec(s) == seq![cmp] + scan_spec(string@.skip(j as int)));
                    }
                    out.push(cmp);
                    proof {
                        assert(out@ =~= out@.drop_last().push(cmp));
                        assert(out@.drop_last() + (seq![cmp] + scan_spec(string@.skip(j as int)))
                            =~= out@ + scan_spec(string@.skip(j as int)));
                    }
                } else {
                    proof {
                        assert(g > i32::MAX as nat);
                        if single {
                            assert(scanned_cmp(seq![s[0]], g) is None);
                        } else {
                            assert(scanned_cmp(seq![s[0], '='], g) is None);
                        }
                        assert(scan_spec(s) == Seq::<Comparison>::empty() + scan_spec(
                            string@.skip(j as int),
                        ));
                        assert(Seq::<Comparison>::empty() + scan_spec(string@.skip(j as int))
                            =~= scan_spec(string@.skip(j as int)));
                    }
                }
                pos = j;
            } else {
                proof {
                    assert(scan_step(s) is None);
                    assert(s.drop_first() =~= string@.skip(pos as int + 1));
                    assert(scan_spec(s) == scan_spec(s.drop_first()));
                }
                pos = pos + 1;
            }
        }
        proof {
            assert(string@.skip(v@.len() as int) =~= Seq::<char>::empty());
            assert(out@ + Seq::<Comparison>::empty() =~= out@);
        }
        out
    }

    /// Whether the comparison accepts a number.
    pub fn compare(&self, number: i32) -> (r: bool)
        ensures
            r == self.holds_for(number as int),
    {
        match self {
            Comparison::GreaterThan(n) => number > *n,
            Comparison::GreaterThanEqual(n) => number >= *n,
            Comparison::LessThan(n) => number < *n,
            Comparison::LessThanEqual(n) => number <= *n,
            Comparison::Equal(n) => number == *n,
            Comparison::NotEqual(n) => number != *n,
        }
    }

    /// Whether a number passes a filter: an empty filter accepts everything,
    /// otherwise some comparison must accept it.
    pub fn batch_compare(comparisons: &Vec<Comparison>, number: i32) -> (r: bool)
        ensures
            r == (comparisons@.len() == 0 || exists|i: int|
                0 <= i < comparisons@.len() && (#[trigger] comparisons@[i]).holds_for(
                    number as int,
                )),
    {
        if comparisons.len() == 0 {
            return true;
        }
        for i in 0..comparisons.len()
            invariant
                forall|j: int|
                    0 <= j < i ==> !(#[trigger] comparisons@[j]).holds_for(number as int),
        {
            if comparisons[i].compare(number) {
                return true;
            }
        }
        false
    }
}

} // verus!
