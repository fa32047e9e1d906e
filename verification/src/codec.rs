//! Lossless text persistence of the metric tree.
//!
//! One line per node: the first line carries the root's entry, every further
//! line one path-table entry as `path;identifier;references`, with numbers in
//! decimal, lists `,`-joined, an author identifier marked by a leading `@`,
//! and the characters `\`, `;` and newline escaped inside identifiers.
//! Decoding replays the recorded insertions in order and checks that every
//! node lands on its recorded path, so a decoded tree is well-formed and a
//! corrupted file is rejected rather than misread.

use vstd::prelude::*;

use crate::bk::find_child;
use crate::bk::lemma_children_model;
use crate::bk::lemma_el_len_ge;
use crate::bk::lemma_strip;
use crate::bk::lemma_strip_step;
use crate::bk::lemma_tree_remove_last;
use crate::bk::lemma_node_at_prefix;
use crate::bk::lemma_node_at_snoc;
use crate::bk::lemma_node_at_wf;
use crate::bk::BkNode;
use crate::bk::BkTree;
use crate::bk::SpecNode;
use crate::bk::SpecTree;
use crate::bk::MAX_IDENTIFIER_LEN;

verus! {

/// Why a persisted index could not be read back.
#[derive(Debug, PartialEq, Eq, Structural)]
pub enum DecodeError {
    /// A line had too few fields, a bad escape, a bad path, or a path that
    /// does not lead where the tree being rebuilt would put the node.
    CorruptIndex,
    /// A references field failed to parse as a list of 32-bit integers.
    InvalidReference,
}

/// Whether a character is a decimal digit.
pub open spec fn is_digit(c: char) -> bool {
    '0' <= c && c <= '9'
}

/// The digit character for a value below ten.
pub open spec fn digit_char(d: nat) -> char {
    if d == 0 {
        '0'
    } else if d == 1 {
        '1'
    } else if d == 2 {
        '2'
    } else if d == 3 {
        '3'
    } else if d == 4 {
        '4'
    } else if d == 5 {
        '5'
    } else if d == 6 {
        '6'
    } else if d == 7 {
        '7'
    } else if d == 8 {
        '8'
    } else {
        '9'
    }
}

/// The value of a digit character.
pub open spec fn digit_val(c: char) -> nat {
    ((c as u32) - ('0' as u32)) as nat
}

/// The decimal representation of a number, most significant digit first.
pub open spec fn dec_rep(n: nat) -> Seq<char>
    decreases n,
{
    if n < 10 {
        seq![digit_char(n)]
    } else {
        dec_rep(n / 10).push(digit_char(n % 10))
    }
}

/// How one identifier character is written: `\`, `;` and newline hide
/// behind a backslash so they cannot collide with the field and line
/// delimiters.
pub open spec fn esc_char(c: char) -> Seq<char> {
    if c == '\\' {
        seq!['\\', '\\']
    } else if c == ';' {
        seq!['\\', ';']
    } else if c == '\n' {
        seq!['\\', 'n']
    } else {
        seq![c]
    }
}

/// An identifier, escaped.
pub open spec fn esc(s: Seq<char>) -> Seq<char>
    decreases s.len(),
{
    if s.len() == 0 {
        Seq::empty()
    } else {
        esc_char(s.first()) + esc(s.drop_first())
    }
}

/// An identifier with its kind marker: authors carry a leading `@`.
pub open spec fn ident_rep(author: bool, ident: Seq<char>) -> Seq<char> {
    (if author {
        seq!['@']
    } else {
        Seq::empty()
    }) + esc(ident)
}

/// A reference list, `,`-joined.
pub open spec fn refs_rep(rs: Seq<u32>) -> Seq<char>
    decreases rs.len(),
{
    if rs.len() == 0 {
        Seq::empty()
    } else if rs.len() == 1 {
        dec_rep(rs.first() as nat)
    } else {
        dec_rep(rs.first() as nat) + seq![','] + refs_rep(rs.drop_first())
    }
}

/// A path, `,`-joined.
pub open spec fn path_rep(p: Seq<u16>) -> Seq<char>
    decreases p.len(),
{
    if p.len() == 0 {
        Seq::empty()
    } else if p.len() == 1 {
        dec_rep(p.first() as nat)
    } else {
        dec_rep(p.first() as nat) + seq![','] + path_rep(p.drop_first())
    }
}

/// One entry as text: marked identifier, then references.
pub open spec fn entry_line(author: bool, ident: Seq<char>, refs: Seq<u32>) -> Seq<char> {
    ident_rep(author, ident) + seq![';'] + refs_rep(refs)
}

/// The lines of every recorded path from position `i` on, each preceded by
/// its line break.
pub open spec fn encode_lines(t: SpecTree, i: int) -> Seq<char>
    decreases t.paths.len() - i,
{
    if i < 0 || i >= t.paths.len() {
        Seq::empty()
    } else {
        let e = t.root.node_at(t.paths[i]).unwrap().entry();
        seq!['\n'] + path_rep(t.paths[i]) + seq![';'] + entry_line(e.author, e.ident, e.refs)
            + encode_lines(t, i + 1)
    }
}

/// The whole persisted form of a tree.
pub open spec fn encode_spec(t: SpecTree) -> Seq<char> {
    entry_line(t.root.author, t.root.ident, t.root.refs) + encode_lines(t, 0)
}

/// The position of the first occurrence of a character, or a negative
/// value if it does not occur.
pub open spec fn first_at(s: Seq<char>, c: char) -> int
    decreases s.len(),
{
    if s.len() == 0 {
        -1
    } else if s.first() == c {
        0
    } else {
        let r = first_at(s.drop_first(), c);
        if r < 0 {
            -1
        } else {
            1 + r
        }
    }
}

/// The text split at every occurrence of a character; always at least one
/// piece.
pub open spec fn split_at_char(s: Seq<char>, c: char) -> Seq<Seq<char>>
    decreases s.len(),
{
    let i = first_at(s, c);
    if i < 0 || i >= s.len() {
        seq![s]
    } else {
        seq![s.take(i)] + split_at_char(s.skip(i + 1), c)
    }
}

/// The text split at line breaks.
pub open spec fn split_lines(s: Seq<char>) -> Seq<Seq<char>> {
    split_at_char(s, '\n')
}

/// The position of the first raw `;`, or a negative value if none.
pub open spec fn first_semi(s: Seq<char>) -> int {
    first_at(s, ';')
}

/// The text split at commas.
pub open spec fn split_commas(s: Seq<char>) -> Seq<Seq<char>> {
    split_at_char(s, ',')
}

/// What one escape character stands for.
pub open spec fn unesc_char(c: char) -> Option<char> {
    if c == '\\' {
        Some('\\')
    } else if c == ';' {
        Some(';')
    } else if c == 'n' {
        Some('\n')
    } else {
        None
    }
}

/// Reads an escaped identifier up to and through its `;` terminator;
/// nothing if the terminator is missing or an escape is broken.
pub open spec fn parse_ident(s: Seq<char>) -> Option<(Seq<char>, Seq<char>)>
    decreases s.len(),
{
    if s.len() == 0 {
        None
    } else if s.first() == ';' {
        Some((Seq::empty(), s.drop_first()))
    } else if s.first() == '\\' {
        if s.len() < 2 {
            None
        } else {
            match unesc_char(s[1]) {
                None => None,
                Some(u) => match parse_ident(s.skip(2)) {
                    None => None,
                    Some(r) => Some((seq![u] + r.0, r.1)),
                },
            }
        }
    } else {
        match parse_ident(s.drop_first()) {
            None => None,
            Some(r) => Some((seq![s.first()] + r.0, r.1)),
        }
    }
}

/// Accumulates leading digits into a number, returning the rest.
pub open spec fn parse_num_loop(s: Seq<char>, acc: nat) -> (nat, Seq<char>)
    decreases s.len(),
{
    if s.len() > 0 && is_digit(s.first()) {
        parse_num_loop(s.drop_first(), acc * 10 + digit_val(s.first()))
    } else {
        (acc, s)
    }
}

/// A piece that is exactly one decimal number.
pub open spec fn parse_full_num(s: Seq<char>) -> Option<nat> {
    if s.len() > 0 && is_digit(s.first()) && parse_num_loop(s, 0).1.len() == 0 {
        Some(parse_num_loop(s, 0).0)
    } else {
        None
    }
}

/// A `,`-joined list of numbers given as pieces, each at most `limit`.
pub open spec fn parse_num_pieces(ps: Seq<Seq<char>>, limit: nat) -> Option<Seq<nat>>
    decreases ps.len(),
{
    if ps.len() == 0 {
        Some(Seq::empty())
    } else {
        match parse_full_num(ps.first()) {
            None => None,
            Some(n) => if n > limit {
                None
            } else {
                match parse_num_pieces(ps.drop_first(), limit) {
                    None => None,
                    Some(tail) => Some(seq![n] + tail),
                }
            },
        }
    }
}

/// A references field: empty, or a `,`-joined list of 32-bit numbers.
pub open spec fn parse_refs(s: Seq<char>) -> Option<Seq<u32>> {
    if s.len() == 0 {
        Some(Seq::empty())
    } else {
        match parse_num_pieces(split_commas(s), u32::MAX as nat) {
            None => None,
            Some(ns) => Some(ns.map_values(|n: nat| n as u32)),
        }
    }
}

/// A path field: a non-empty `,`-joined list of 16-bit numbers.
pub open spec fn parse_path(s: Seq<char>) -> Option<Seq<u16>> {
    if s.len() == 0 {
        None
    } else {
        match parse_num_pieces(split_commas(s), u16::MAX as nat) {
            None => None,
            Some(ns) => Some(ns.map_values(|n: nat| n as u16)),
        }
    }
}

/// One entry parsed from the text after its path: kind marker, escaped
/// identifier, references.
pub open spec fn parse_entry(s: Seq<char>) -> Result<(bool, Seq<char>, Seq<u32>), DecodeError> {
    let author = s.len() > 0 && s.first() == '@';
    let s1 = if author {
        s.drop_first()
    } else {
        s
    };
    match parse_ident(s1) {
        None => Err(DecodeError::CorruptIndex),
        Some(r) => if r.0.len() > MAX_IDENTIFIER_LEN {
            Err(DecodeError::CorruptIndex)
        } else if !author && r.0.len() > 0 && r.0[0] == '@' {
            Err(DecodeError::CorruptIndex)
        } else {
            match parse_refs(r.1) {
                None => Err(DecodeError::InvalidReference),
                Some(rs) => Ok((author, r.0, rs)),
            }
        },
    }
}

/// Replays the recorded insertions of the remaining lines onto the tree,
/// checking that each node lands on its recorded path.
pub open spec fn decode_lines_spec(t: SpecTree, lines: Seq<Seq<char>>, i: int) -> Result<
    SpecTree,
    DecodeError,
>
    decreases lines.len() - i,
{
    if i >= lines.len() {
        Ok(t)
    } else {
        let l = lines[i];
        let semi = first_semi(l);
        if semi < 0 {
            Err(DecodeError::CorruptIndex)
        } else {
            match parse_path(l.take(semi)) {
                None => Err(DecodeError::CorruptIndex),
                Some(path) => match parse_entry(l.skip(semi + 1)) {
                    Err(e) => Err(e),
                    Ok(rec) => {
                        let m = SpecNode {
                            ident: rec.1,
                            author: rec.0,
                            refs: rec.2,
                            children: Seq::empty(),
                        };
                        let r = t.root.add_spec(m);
                        match r.1 {
                            None => Err(DecodeError::CorruptIndex),
                            Some(p) => if p != path {
                                Err(DecodeError::CorruptIndex)
                            } else {
                                decode_lines_spec(
                                    SpecTree { root: r.0, paths: t.paths.push(p) },
                                    lines,
                                    i + 1,
                                )
                            },
                        }
                    },
                },
            }
        }
    }
}

/// What decoding yields on any text: the rebuilt tree, or the reason the
/// text cannot be one of this codec's.
pub open spec fn decode_spec(s: Seq<char>) -> Result<SpecTree, DecodeError> {
    let lines = split_lines(s);
    match parse_entry(lines[0]) {
        Err(e) => Err(e),
        Ok(rec) => {
            let t0 = SpecTree {
                root: SpecNode {
                    ident: rec.1,
                    author: rec.0,
                    refs: rec.2,
                    children: Seq::empty(),
                },
                paths: Seq::empty(),
            };
            decode_lines_spec(t0, lines, 1)
        },
    }
}


/// Relies on String::push: appends the given character in place.
#[verifier::external_body]
fn push_char(s: &mut String, c: char)
    ensures
        final(s)@ == old(s)@.push(c),
{
    s.push(c);
}

/// The digit character for a value below ten, executably.
fn digit_char_exec(d: u32) -> (c: char)
    requires
        d < 10,
    ensures
        c == digit_char(d as nat),
{
    if d == 0 {
        '0'
    } else if d == 1 {
        '1'
    } else if d == 2 {
        '2'
    } else if d == 3 {
        '3'
    } else if d == 4 {
        '4'
    } else if d == 5 {
        '5'
    } else if d == 6 {
        '6'
    } else if d == 7 {
        '7'
    } else if d == 8 {
        '8'
    } else {
        '9'
    }
}

/// Appends a number in decimal.
fn write_num(out: &mut String, n: u32)
    ensures
        final(out)@ == old(out)@ + dec_rep(n as nat),
    decreases n,
{
    if n >= 10 {
        write_num(out, n / 10);
    }
    push_char(out, digit_char_exec(n % 10));
    proof {
        if n < 10 {
            assert(final(out)@ =~= old(out)@ + dec_rep(n as nat));
        } else {
            assert(final(out)@ =~= old(out)@ + dec_rep(n as nat));
        }
    }
}

/// Joining one more element to a non-empty reference list.
proof fn lemma_refs_rep_snoc(rs: Seq<u32>, x: u32)
    requires
        rs.len() >= 1,
    ensures
        refs_rep(rs.push(x)) == refs_rep(rs) + seq![','] + dec_rep(x as nat),
    decreases rs.len(),
{
    assert(rs.push(x).first() == rs.first());
    assert(rs.push(x).drop_first() =~= rs.drop_first().push(x));
    assert(rs.push(x).len() == rs.len() + 1);
    assert(refs_rep(rs.push(x)) == dec_rep(rs.first() as nat) + seq![','] + refs_rep(
        rs.drop_first().push(x),
    ));
    if rs.len() == 1 {
        assert(rs.drop_first().push(x) =~= seq![x]);
        assert(seq![x].first() == x);
        assert(refs_rep(seq![x]) == dec_rep(x as nat));
        assert(refs_rep(rs) == dec_rep(rs.first() as nat));
        assert(refs_rep(rs.push(x)) =~= refs_rep(rs) + seq![','] + dec_rep(x as nat));
    } else {
        lemma_refs_rep_snoc(rs.drop_first(), x);
        assert(refs_rep(rs) == dec_rep(rs.first() as nat) + seq![','] + refs_rep(rs.drop_first()));
        assert(refs_rep(rs.push(x)) =~= refs_rep(rs) + seq![','] + dec_rep(x as nat));
    }
}

/// Joining one more element to a non-empty path.
proof fn lemma_path_rep_snoc(p: Seq<u16>, x: u16)
    requires
        p.len() >= 1,
    ensures
        path_rep(p.push(x)) == path_rep(p) + seq![','] + dec_rep(x as nat),
    decreases p.len(),
{
    assert(p.push(x).first() == p.first());
    assert(p.push(x).drop_first() =~= p.drop_first().push(x));
    assert(p.push(x).len() == p.len() + 1);
    assert(path_rep(p.push(x)) == dec_rep(p.first() as nat) + seq![','] + path_rep(
        p.drop_first().push(x),
    ));
    if p.len() == 1 {
        assert(p.drop_first().push(x) =~= seq![x]);
        assert(seq![x].first() == x);
        assert(path_rep(seq![x]) == dec_rep(x as nat));
        assert(path_rep(p) == dec_rep(p.first() as nat));
        assert(path_rep(p.push(x)) =~= path_rep(p) + seq![','] + dec_rep(x as nat));
    } else {
        lemma_path_rep_snoc(p.drop_first(), x);
        assert(path_rep(p) == dec_rep(p.first() as nat) + seq![','] + path_rep(p.drop_first()));
        assert(path_rep(p.push(x)) =~= path_rep(p) + seq![','] + dec_rep(x as nat));
    }
}

/// Escaping one more character.
proof fn lemma_esc_snoc(s: Seq<char>, c: char)
    ensures
        esc(s.push(c)) == esc(s) + esc_char(c),
    decreases s.len(),
{
    assert(s.push(c).len() == s.len() + 1);
    if s.len() == 0 {
        assert(s.push(c).first() == c);
        assert(s.push(c).drop_first() =~= Seq::<char>::empty());
        assert(esc(s.push(c)) == esc_char(c) + esc(Seq::<char>::empty()));
        assert(esc(s.push(c)) =~= esc(s) + esc_char(c));
    } else {
        assert(s.push(c).first() == s.first());
        assert(s.push(c).drop_first() =~= s.drop_first().push(c));
        assert(esc(s.push(c)) == esc_char(s.first()) + esc(s.drop_first().push(c)));
        lemma_esc_snoc(s.drop_first(), c);
        assert(esc(s) == esc_char(s.first()) + esc(s.drop_first()));
        assert(esc(s.push(c)) =~= esc(s) + esc_char(c));
    }
}

/// Appends a reference list, `,`-joined.
fn write_refs(out: &mut String, refs: &Vec<u32>)
    ensures
        final(out)@ == old(out)@ + refs_rep(refs@),
{
    if refs.len() == 0 {
        proof {
            assert(final(out)@ =~= old(out)@ + refs_rep(refs@));
        }
        return ;
    }
    write_num(out, refs[0]);
    proof {
        assert(refs@.take(1) =~= seq![refs@[0]]);
        assert(out@ =~= old(out)@ + refs_rep(refs@.take(1)));
    }
    for i in 1..refs.len()
        invariant
            1 <= i <= refs@.len(),
            out@ == old(out)@ + refs_rep(refs@.take(i as int)),
    {
        push_char(out, ',');
        write_num(out, refs[i]);
        proof {
            lemma_refs_rep_snoc(refs@.take(i as int), refs@[i as int]);
            assert(refs@.take(i + 1) =~= refs@.take(i as int).push(refs@[i as int]));
            assert(out@ =~= old(out)@ + refs_rep(refs@.take(i + 1)));
        }
    }
    proof {
        assert(refs@.take(refs@.len() as int) =~= refs@);
    }
}

/// Appends a path, `,`-joined.
fn write_path(out: &mut String, p: &Vec<u16>)
    ensures
        final(out)@ == old(out)@ + path_rep(p@),
{
    if p.len() == 0 {
        proof {
            assert(final(out)@ =~= old(out)@ + path_rep(p@));
        }
        return ;
    }
    write_num(out, p[0] as u32);
    proof {
        assert(p@.take(1) =~= seq![p@[0]]);
        assert(out@ =~= old(out)@ + path_rep(p@.take(1)));
    }
    for i in 1..p.len()
        invariant
            1 <= i <= p@.len(),
            out@ == old(out)@ + path_rep(p@.take(i as int)),
    {
        push_char(out, ',');
        write_num(out, p[i] as u32);
        proof {
            lemma_path_rep_snoc(p@.take(i as int), p@[i as int]);
            assert(p@.take(i + 1) =~= p@.take(i as int).push(p@[i as int]));
            assert(out@ =~= old(out)@ + path_rep(p@.take(i + 1)));
        }
    }
    proof {
        assert(p@.take(p@.len() as int) =~= p@);
    }
}

/// Appends a marked, escaped identifier.
fn write_ident(out: &mut String, author: bool, ident: &str)
    ensures
        final(out)@ == old(out)@ + ident_rep(author, ident@),
{
    if author {
        push_char(out, '@');
    }
    let ghost mark: Seq<char> = if author {
        seq!['@']
    } else {
        Seq::empty()
    };
    proof {
        assert(esc(ident@.take(0)) =~= Seq::<char>::empty());
        assert(out@ =~= old(out)@ + mark + esc(ident@.take(0)));
    }
    let n = ident.unicode_len();
    for i in 0..n
        invariant
            n == ident@.len(),
            mark == (if author {
                seq!['@']
            } else {
                Seq::<char>::empty()
            }),
            out@ == old(out)@ + mark + esc(ident@.take(i as int)),
    {
        let c = ident.get_char(i);
        if c == '\\' {
            push_char(out, '\\');
            push_char(out, '\\');
        } else if c == ';' {
            push_char(out, '\\');
            push_char(out, ';');
        } else if c == '\n' {
            push_char(out, '\\');
            push_char(out, 'n');
        } else {
            push_char(out, c);
        }
        proof {
            lemma_esc_snoc(ident@.take(i as int), c);
            assert(ident@.take(i + 1) =~= ident@.take(i as int).push(c));
            assert(out@ =~= old(out)@ + mark + esc(ident@.take(i + 1)));
        }
    }
    proof {
        assert(ident@.take(ident@.len() as int) =~= ident@);
        assert(final(out)@ =~= old(out)@ + ident_rep(author, ident@));
    }
}

/// The node a recorded path leads to.
fn walk<'a>(root: &'a BkNode, p: &Vec<u16>) -> (node: &'a BkNode)
    requires
        root@.wf(),
        root@.node_at(p@) is Some,
    ensures
        node@ == root@.node_at(p@).unwrap(),
        node@.wf(),
{
    let mut cur: &BkNode = root;
    proof {
        assert(p@.take(0) =~= Seq::<u16>::empty());
    }
    for j in 0..p.len()
        invariant
            root@.wf(),
            root@.node_at(p@) is Some,
            root@.node_at(p@.take(j as int)) is Some,
            cur@ == root@.node_at(p@.take(j as int)).unwrap(),
            cur@.wf(),
    {
        proof {
            lemma_node_at_prefix(root@, p@, j + 1);
            lemma_node_at_snoc(root@, p@.take(j as int), p@[j as int]);
            assert(p@.take(j as int).push(p@[j as int]) =~= p@.take(j + 1));
            assert(cur@.has_child(p@[j as int]));
            lemma_children_model(cur.children@);
            assert forall|x: int, y: int|
                0 <= x < y < cur.children@.len() implies (#[trigger] cur.children@[x]).key != (
            #[trigger] cur.children@[y]).key by {
                assert(cur@.children[x].0 != cur@.children[y].0);
            }
        }
        let idx = match find_child(&cur.children, p[j]) {
            Some(idx) => idx,
            None => {
                proof {
                    let w = cur@.child_index(p@[j as int]);
                    assert(0 <= w < cur@.children.len() && cur@.children[w].0 == p@[j as int]);
                    assert(cur.children@[w].key == p@[j as int]);
                }
                unreached()
            },
        };
        proof {
            let w = cur@.child_index(p@[j as int]);
            assert(0 <= w < cur@.children.len() && cur@.children[w].0 == p@[j as int]);
            if w != idx as int {
                assert(cur@.children[w].0 != cur@.children[idx as int].0);
            }
            assert(cur@.child_at(p@[j as int]) == cur@.children[idx as int].1);
            lemma_node_at_wf(root@, p@.take(j + 1));
        }
        cur = &cur.children[idx].node;
    }
    proof {
        assert(p@.take(p@.len() as int) =~= p@);
    }
    cur
}

impl BkTree {
    /// The whole tree as text: the root's entry, then one line per recorded
    /// path, in insertion order.
    pub fn encode(&self) -> (out: String)
        requires
            self@.wf(),
        ensures
            out@ == encode_spec(self@),
    {
        let mut out = String::new();
        write_ident(&mut out, self.root.data.author_kind(), self.root.identifier.as_str());
        push_char(&mut out, ';');
        write_refs(&mut out, self.root.data.refs_ref());
        proof {
            assert(out@ =~= entry_line(self@.root.author, self@.root.ident, self@.root.refs));
        }
        for i in 0..self.paths.len()
            invariant
                self@.wf(),
                self@.paths.len() == self.paths@.len(),
                out@ + encode_lines(self@, i as int) == encode_spec(self@),
        {
            proof {
                assert(self@.paths[i as int] == self.paths@[i as int]@);
            }
            push_char(&mut out, '\n');
            write_path(&mut out, &self.paths[i]);
            push_char(&mut out, ';');
            let node = walk(&self.root, &self.paths[i]);
            write_ident(&mut out, node.data.author_kind(), node.identifier.as_str());
            push_char(&mut out, ';');
            write_refs(&mut out, node.data.refs_ref());
            proof {
                let e = self@.root.node_at(self@.paths[i as int]).unwrap().entry();
                assert(node@.ident == e.ident && node@.author == e.author && node@.refs == e.refs);
                assert(out@ + encode_lines(self@, i + 1) =~= encode_spec(self@));
            }
        }
        proof {
            assert(out@ + encode_lines(self@, self.paths@.len() as int) =~= out@);
        }
        out
    }
}


/// Occurrence bounds of `first_at`: where it points, nothing earlier
/// matches; a negative answer means no occurrence at all.
proof fn lemma_first_at_char(s: Seq<char>, c: char)
    ensures
        first_at(s, c) >= 0 ==> first_at(s, c) < s.len() && s[first_at(s, c)] == c && (forall|j: int|
            0 <= j < first_at(s, c) ==> s[j] != c),
        first_at(s, c) < 0 ==> forall|j: int| 0 <= j < s.len() ==> s[j] != c,
    decreases s.len(),
{
    if s.len() > 0 && s.first() != c {
        lemma_first_at_char(s.drop_first(), c);
        let r = first_at(s.drop_first(), c);
        if r >= 0 {
            assert(s[first_at(s, c)] == s.drop_first()[r]);
            assert forall|j: int| 0 <= j < first_at(s, c) implies s[j] != c by {
                if j > 0 {
                    assert(s.drop_first()[j - 1] != c);
                    assert(s[j] == s.drop_first()[j - 1]);
                }
            }
        } else {
            assert forall|j: int| 0 <= j < s.len() implies s[j] != c by {
                if j > 0 {
                    assert(s.drop_first()[j - 1] != c);
                    assert(s[j] == s.drop_first()[j - 1]);
                }
            }
        }
    }
}

/// `first_at` from the occurrence pattern: a hit at `i` with nothing
/// earlier pins the answer.
proof fn lemma_first_at_exact(s: Seq<char>, c: char, i: int)
    requires
        0 <= i < s.len(),
        s[i] == c,
        forall|j: int| 0 <= j < i ==> s[j] != c,
    ensures
        first_at(s, c) == i,
    decreases s.len(),
{
    if i > 0 {
        assert forall|j: int| 0 <= j < i - 1 implies s.drop_first()[j] != c by {
            assert(s.drop_first()[j] == s[j + 1]);
        }
        assert(s.drop_first()[i - 1] == s[i]);
        lemma_first_at_exact(s.drop_first(), c, i - 1);
    }
}

/// Splitting around one delimiter occurrence.
proof fn lemma_split_append(a: Seq<char>, b: Seq<char>, c: char)
    requires
        first_at(a, c) < 0,
    ensures
        split_at_char(a + seq![c] + b, c) == seq![a] + split_at_char(b, c),
{
    lemma_first_at_char(a, c);
    let s = a + seq![c] + b;
    assert(s[a.len() as int] == c);
    assert(forall|j: int| 0 <= j < a.len() ==> s[j] == a[j]);
    lemma_first_at_exact(s, c, a.len() as int);
    assert(s.take(a.len() as int) =~= a);
    assert(s.skip(a.len() as int + 1) =~= b);
}

/// A delimiter-free text is a single piece.
proof fn lemma_split_whole(a: Seq<char>, c: char)
    requires
        first_at(a, c) < 0,
    ensures
        split_at_char(a, c) == seq![a],
{
}

/// The characters of a string, as a vector.
pub(crate) fn str_chars(s: &str) -> (v: Vec<char>)
    ensures
        v@ == s@,
{
    let n = s.unicode_len();
    let mut v: Vec<char> = Vec::new();
    for i in 0..n
        invariant
            n == s@.len(),
            v@ =~= s@.take(i as int),
    {
        v.push(s.get_char(i));
    }
    assert(s@.take(s@.len() as int) =~= s@);
    v
}

/// A copy of part of a character vector.
fn sub_vec(v: &Vec<char>, from: usize, to: usize) -> (r: Vec<char>)
    requires
        from <= to <= v@.len(),
    ensures
        r@ == v@.subrange(from as int, to as int),
{
    let mut r: Vec<char> = Vec::new();
    for i in from..to
        invariant
            from <= i <= to <= v@.len(),
            r@ =~= v@.subrange(from as int, i as int),
    {
        r.push(v[i]);
        proof {
            assert(v@.subrange(from as int, i + 1) =~= v@.subrange(from as int, i as int).push(
                v@[i as int],
            ));
        }
    }
    r
}

/// The pieces of a character vector split at a delimiter.
fn split_exec(v: &Vec<char>, c: char) -> (ls: Vec<Vec<char>>)
    ensures
        ls@.map_values(|l: Vec<char>| l@) == split_at_char(v@, c),
        ls@.len() >= 1,
{
    let mut ls: Vec<Vec<char>> = Vec::new();
    let mut cur: Vec<char> = Vec::new();
    proof {
        assert(cur@ + v@.skip(0) =~= v@);
        assert(ls@.map_values(|l: Vec<char>| l@) =~= Seq::<Seq<char>>::empty());
        assert(Seq::<Seq<char>>::empty() + split_at_char(v@, c) =~= split_at_char(v@, c));
    }
    for i in 0..v.len()
        invariant
            first_at(cur@, c) < 0,
            ls@.map_values(|l: Vec<char>| l@) + split_at_char(cur@ + v@.skip(i as int), c)
                =~= split_at_char(v@, c),
    {
        proof {
            assert(v@.skip(i as int).first() == v@[i as int]);
        }
        if v[i] == c {
            proof {
                assert(cur@ + v@.skip(i as int) =~= cur@ + seq![c] + v@.skip(i + 1));
                lemma_split_append(cur@, v@.skip(i + 1), c);
            }
            let done = cur;
            cur = Vec::new();
            ls.push(done);
            proof {
                assert(ls@.map_values(|l: Vec<char>| l@) =~= ls@.drop_last().map_values(
                    |l: Vec<char>| l@,
                ).push(done@));
                assert(cur@ + v@.skip(i + 1) =~= v@.skip(i + 1));
                assert(ls@.map_values(|l: Vec<char>| l@) + split_at_char(cur@ + v@.skip(i + 1), c)
                    =~= split_at_char(v@, c));
            }
        } else {
            proof {
                lemma_first_at_char(cur@, c);
                assert(forall|j: int| 0 <= j < cur@.len() ==> cur@[j] != c);
                lemma_first_at_char(cur@.push(v@[i as int]), c);
                if first_at(cur@.push(v@[i as int]), c) >= 0 {
                    let w = first_at(cur@.push(v@[i as int]), c);
                    assert(cur@.push(v@[i as int])[w] == c);
                }
                assert(cur@.push(v@[i as int]) + v@.skip(i + 1) =~= cur@ + v@.skip(i as int));
            }
            cur.push(v[i]);
        }
    }
    proof {
        assert(cur@ + v@.skip(v@.len() as int) =~= cur@);
        lemma_split_whole(cur@, c);
    }
    ls.push(cur);
    proof {
        assert(ls@.map_values(|l: Vec<char>| l@) =~= ls@.drop_last().map_values(
            |l: Vec<char>| l@,
        ).push(ls@.last()@));
    }
    ls
}

/// One piece as a number, refused above `limit`.
fn parse_full_num_exec(p: &Vec<char>, limit: u64) -> (r: Option<u64>)
    requires
        limit <= u32::MAX as u64,
    ensures
        match parse_full_num(p@) {
            None => r is None,
            Some(n) => if n > limit as nat {
                r is None
            } else {
                r == Some(n as u64) && n <= limit as nat
            },
        },
{
    if p.len() == 0 {
        return None;
    }
    let c0 = p[0];
    if !('0' <= c0 && c0 <= '9') {
        return None;
    }
    let mut acc: u64 = 0;
    let mut sat: bool = false;
    let ghost mut g: nat = 0nat;
    proof {
        assert(p@.skip(0) =~= p@);
    }
    for i in 0..p.len()
        invariant
            limit <= u32::MAX as u64,
            parse_num_loop(p@, 0) == parse_num_loop(p@.skip(i as int), g),
            forall|j: int| 0 <= j < i ==> is_digit(p@[j]),
            sat <==> g > limit as nat,
            !sat ==> acc == g,
    {
        let ch = p[i];
        proof {
            assert(p@.skip(i as int).first() == p@[i as int]);
            assert(p@.skip(i as int).drop_first() =~= p@.skip(i + 1));
        }
        if !('0' <= ch && ch <= '9') {
            proof {
                assert(!is_digit(p@[i as int]));
                assert(parse_num_loop(p@.skip(i as int), g) == (g, p@.skip(i as int)));
                assert(p@.skip(i as int).len() > 0);
            }
            return None;
        }
        let d = (ch as u32) - 48;
        proof {
            assert(('0' as u32) == 48);
            assert(d == digit_val(p@[i as int]));
            assert(d < 10);
        }
        if sat {
            proof {
                g = g * 10 + digit_val(p@[i as int]);
                assert(g > limit as nat);
            }
        } else {
            let next = acc * 10 + (d as u64);
            proof {
                g = g * 10 + digit_val(p@[i as int]);
                assert(next == g);
            }
            if next > limit {
                sat = true;
            } else {
                acc = next;
            }
        }
    }
    proof {
        assert(p@.skip(p@.len() as int) =~= Seq::<char>::empty());
        assert(parse_num_loop(p@, 0) == (g, Seq::<char>::empty()));
        assert(is_digit(p@[0]));
        assert(parse_full_num(p@) == Some(g));
    }
    if sat {
        None
    } else {
        Some(acc)
    }
}

/// A `,`-joined field of numbers, each at most `limit`.
fn parse_num_list(field: &Vec<char>, limit: u64) -> (r: Option<Vec<u64>>)
    requires
        limit <= u32::MAX as u64,
    ensures
        match parse_num_pieces(split_commas(field@), limit as nat) {
            None => r is None,
            Some(ns) => r is Some && r.unwrap()@.map_values(|x: u64| x as nat) == ns,
        },
        r is Some ==> forall|j: int| 0 <= j < r.unwrap()@.len() ==> r.unwrap()@[j] <= limit,
{
    let pieces = split_exec(field, ',');
    let ghost ps = split_commas(field@);
    let mut out: Vec<u64> = Vec::new();
    proof {
        assert(ps.skip(0) =~= ps);
        assert(out@.map_values(|x: u64| x as nat) =~= Seq::<nat>::empty());
        if parse_num_pieces(ps, limit as nat) is Some {
            assert(Seq::<nat>::empty() + parse_num_pieces(ps, limit as nat).unwrap()
                =~= parse_num_pieces(ps, limit as nat).unwrap());
        }
    }
    for i in 0..pieces.len()
        invariant
            limit <= u32::MAX as u64,
            ps == split_commas(field@),
            ps == pieces@.map_values(|l: Vec<char>| l@),
            forall|j: int| 0 <= j < out@.len() ==> out@[j] <= limit,
            match parse_num_pieces(ps.skip(i as int), limit as nat) {
                None => parse_num_pieces(ps, limit as nat) is None,
                Some(tail) => parse_num_pieces(ps, limit as nat) == Some(
                    out@.map_values(|x: u64| x as nat) + tail,
                ),
            },
    {
        proof {
            assert(ps.skip(i as int).first() == ps[i as int]);
            assert(ps.skip(i as int).drop_first() =~= ps.skip(i + 1));
            assert(ps[i as int] == pieces@[i as int]@);
        }
        match parse_full_num_exec(&pieces[i], limit) {
            None => {
                proof {
                    let sk = ps.skip(i as int);
                    assert(sk.len() > 0);
                    assert(sk.first() == pieces@[i as int]@);
                    match parse_full_num(pieces@[i as int]@) {
                        None => {
                            assert(parse_num_pieces(sk, limit as nat) is None);
                        },
                        Some(n) => {
                            assert(n > limit as nat);
                            assert(parse_num_pieces(sk, limit as nat) is None);
                        },
                    }
                    assert(parse_num_pieces(ps, limit as nat) is None);
                }
                return None;
            },
            Some(n) => {
                out.push(n);
                proof {
                    assert(out@.map_values(|x: u64| x as nat) =~= out@.drop_last().map_values(
                        |x: u64| x as nat,
                    ).push(n as nat));
                    if parse_num_pieces(ps.skip(i + 1), limit as nat) is Some {
                        let tail = parse_num_pieces(ps.skip(i + 1), limit as nat).unwrap();
                        assert(parse_num_pieces(ps.skip(i as int), limit as nat) == Some(
                            seq![n as nat] + tail,
                        ));
                        assert(out@.drop_last().map_values(|x: u64| x as nat) + (seq![n as nat]
                            + tail) =~= out@.map_values(|x: u64| x as nat) + tail);
                    }
                }
            },
        }
    }
    proof {
        assert(ps.skip(ps.len() as int) =~= Seq::<Seq<char>>::empty());
        assert(parse_num_pieces(ps.skip(ps.len() as int), limit as nat) == Some(
            Seq::<nat>::empty(),
        ));
        assert(out@.map_values(|x: u64| x as nat) + Seq::<nat>::empty() =~= out@.map_values(
            |x: u64| x as nat,
        ));
    }
    Some(out)
}

/// An escaped identifier read from `start` through its `;` terminator.
fn parse_ident_exec(line: &Vec<char>, start: usize) -> (r: Option<(String, usize)>)
    requires
        start <= line@.len(),
    ensures
        match parse_ident(line@.skip(start as int)) {
            None => r is None,
            Some(pr) => r is Some && r.unwrap().0@ == pr.0 && start <= r.unwrap().1 <= line@.len()
                && line@.skip(r.unwrap().1 as int) == pr.1,
        },
{
    let mut id = String::new();
    let mut pos = start;
    loop
        invariant
            start <= pos <= line@.len(),
            match parse_ident(line@.skip(pos as int)) {
                None => parse_ident(line@.skip(start as int)) is None,
                Some(pr) => parse_ident(line@.skip(start as int)) == Some((id@ + pr.0, pr.1)),
            },
        decreases line@.len() - pos,
    {
        proof {
            if pos < line@.len() {
                assert(line@.skip(pos as int).first() == line@[pos as int]);
                assert(line@.skip(pos as int).drop_first() =~= line@.skip(pos + 1));
            }
        }
        if pos >= line.len() {
            return None;
        }
        let ch = line[pos];
        if ch == ';' {
            proof {
                assert(parse_ident(line@.skip(pos as int)) == Some(
                    (Seq::<char>::empty(), line@.skip(pos + 1)),
                ));
                assert(id@ + Seq::<char>::empty() =~= id@);
            }
            return Some((id, pos + 1));
        } else if ch == '\\' {
            if pos + 1 >= line.len() {
                proof {
                    assert(line@.skip(pos as int).len() < 2);
                }
                return None;
            }
            let e = line[pos + 1];
            proof {
                assert(line@.skip(pos as int)[1] == line@[pos + 1]);
                assert(line@.skip(pos as int).skip(2) =~= line@.skip(pos + 2));
            }
            let u: char = if e == '\\' {
                '\\'
            } else if e == ';' {
                ';'
            } else if e == 'n' {
                '\n'
            } else {
                return None;
            };
            proof {
                assert(unesc_char(line@[pos + 1]) == Some(u));
            }
            let ghost old_id = id@;
            push_char(&mut id, u);
            proof {
                if parse_ident(line@.skip(pos + 2)) is Some {
                    let pr = parse_ident(line@.skip(pos + 2)).unwrap();
                    assert(id@ + pr.0 =~= old_id + (seq![u] + pr.0));
                }
            }
            pos = pos + 2;
        } else {
            let ghost old_id = id@;
            push_char(&mut id, ch);
            proof {
                if parse_ident(line@.skip(pos + 1)) is Some {
                    let pr = parse_ident(line@.skip(pos + 1)).unwrap();
                    assert(id@ + pr.0 =~= old_id + (seq![line@[pos as int]] + pr.0));
                }
            }
            pos = pos + 1;
        }
    }
}

/// The position of the first occurrence of a character, executably.
fn find_char(v: &Vec<char>, c: char) -> (r: Option<usize>)
    ensures
        match r {
            Some(i) => i < v@.len() && first_at(v@, c) == i,
            None => first_at(v@, c) < 0,
        },
{
    for i in 0..v.len()
        invariant
            forall|j: int| 0 <= j < i ==> v@[j] != c,
    {
        if v[i] == c {
            proof {
                lemma_first_at_exact(v@, c, i as int);
            }
            return Some(i);
        }
    }
    proof {
        lemma_first_at_char(v@, c);
        if first_at(v@, c) >= 0 {
            assert(v@[first_at(v@, c)] == c);
        }
    }
    None
}

/// Whether two paths are the same.
fn paths_equal(a: &Vec<u16>, b: &Vec<u16>) -> (r: bool)
    ensures
        r == (a@ == b@),
{
    if a.len() != b.len() {
        proof {
            assert(a@.len() != b@.len());
        }
        return false;
    }
    for i in 0..a.len()
        invariant
            a@.len() == b@.len(),
            forall|j: int| 0 <= j < i ==> a@[j] == b@[j],
    {
        if a[i] != b[i] {
            return false;
        }
    }
    proof {
        assert(a@ =~= b@);
    }
    true
}

/// The marked identifier and references of one entry, parsed from `start`.
fn parse_entry_exec(line: &Vec<char>, start: usize) -> (r: Result<
    (bool, String, Vec<u32>),
    DecodeError,
>)
    requires
        start <= line@.len(),
    ensures
        match parse_entry(line@.skip(start as int)) {
            Err(e) => r == Err::<(bool, String, Vec<u32>), DecodeError>(e),
            Ok(rec) => r is Ok && r.unwrap().0 == rec.0 && r.unwrap().1@ == rec.1
                && r.unwrap().2@ == rec.2,
        },
{
    let ghost s = line@.skip(start as int);
    let author = start < line.len() && line[start] == '@';
    let start1 = if author {
        start + 1
    } else {
        start
    };
    proof {
        if author {
            assert(s.first() == line@[start as int]);
            assert(s.drop_first() =~= line@.skip(start1 as int));
        } else {
            assert(line@.skip(start1 as int) == s);
        }
    }
    let parsed = parse_ident_exec(line, start1);
    match parsed {
        None => Err(DecodeError::CorruptIndex),
        Some((id, after)) => {
            let idn = id.as_str().unicode_len();
            if idn > MAX_IDENTIFIER_LEN {
                return Err(DecodeError::CorruptIndex);
            }
            if !author && idn > 0 && id.as_str().get_char(0) == '@' {
                return Err(DecodeError::CorruptIndex);
            }
            let field = sub_vec(line, after, line.len());
            proof {
                assert(field@ == line@.skip(after as int));
            }
            if field.len() == 0 {
                proof {
                    assert(parse_refs(field@) == Some(Seq::<u32>::empty()));
                }
                return Ok((author, id, Vec::new()));
            }
            match parse_num_list(&field, 0xFFFF_FFFFu64) {
                None => {
                    proof {
                        assert(0xFFFF_FFFFu64 as nat == u32::MAX as nat);
                        assert(parse_refs(field@) is None);
                    }
                    Err(DecodeError::InvalidReference)
                },
                Some(ns) => {
                    let mut refs: Vec<u32> = Vec::new();
                    for i in 0..ns.len()
                        invariant
                            forall|j: int| 0 <= j < ns@.len() ==> ns@[j] <= u32::MAX as u64,
                            refs@.len() == i,
                            forall|j: int| 0 <= j < i ==> refs@[j] == ns@[j] as u32,
                    {
                        refs.push(ns[i] as u32);
                    }
                    proof {
                        assert(0xFFFF_FFFFu64 as nat == u32::MAX as nat);
                        let pieces = parse_num_pieces(split_commas(field@), u32::MAX as nat);
                        assert(pieces == Some(ns@.map_values(|x: u64| x as nat)));
                        assert(refs@ =~= pieces.unwrap().map_values(|n: nat| n as u32));
                    }
                    Ok((author, id, refs))
                },
            }
        },
    }
}

impl BkTree {
    /// Rebuilds a tree from its persisted text, replaying the recorded
    /// insertions in order; a file that does not describe such a replay is
    /// rejected with the reason.
    pub fn decode(text: &str) -> (r: Result<BkTree, DecodeError>)
        ensures
            match r {
                Ok(t) => decode_spec(text@) == Ok::<SpecTree, DecodeError>(t@) && t@.wf(),
                Err(e) => decode_spec(text@) == Err::<SpecTree, DecodeError>(e),
            },
    {
        let v = str_chars(text);
        let lines = split_exec(&v, '\n');
        let ghost lm = split_lines(text@);
        proof {
            assert(lm[0] == lines@[0]@);
            assert(lines@[0]@.skip(0) == lines@[0]@);
        }
        let rec = match parse_entry_exec(&lines[0], 0) {
            Err(e) => {
                return Err(e);
            },
            Ok(rec) => rec,
        };
        let (author, id, refs) = rec;
        let root = BkNode {
            identifier: id,
            data: if author {
                crate::bk::BkData::Author(refs)
            } else {
                crate::bk::BkData::Book(refs)
            },
            children: Vec::new(),
        };
        proof {
            assert(crate::bk::BkNode::children_model(root.children@) =~= Seq::<
                (u16, SpecNode),
            >::empty());
            assert(root@.wf());
        }
        let mut tree = BkTree::init(root);
        for i in 1..lines.len()
            invariant
                lm == lines@.map_values(|l: Vec<char>| l@),
                1 <= i <= lines@.len(),
                tree@.wf(),
                decode_lines_spec(tree@, lm, i as int) == decode_spec(text@),
        {
            let ghost l = lm[i as int];
            proof {
                assert(l == lines@[i as int]@);
            }
            let line_len = lines[i].len();
            let semi = match find_char(&lines[i], ';') {
                None => {
                    return Err(DecodeError::CorruptIndex);
                },
                Some(s) => s,
            };
            proof {
                assert(semi < line_len);
            }
            let path_field = sub_vec(&lines[i], 0, semi);
            proof {
                assert(path_field@ =~= l.take(first_semi(l)));
            }
            let path: Vec<u16> = if path_field.len() == 0 {
                proof {
                    assert(parse_path(l.take(first_semi(l))) is None);
                }
                return Err(DecodeError::CorruptIndex);
            } else {
                match parse_num_list(&path_field, 65535u64) {
                    None => {
                        proof {
                            assert(65535u64 as nat == u16::MAX as nat);
                            assert(parse_path(l.take(first_semi(l))) is None);
                        }
                        return Err(DecodeError::CorruptIndex);
                    },
                    Some(ns) => {
                        let mut path: Vec<u16> = Vec::new();
                        for j in 0..ns.len()
                            invariant
                                forall|w: int| 0 <= w < ns@.len() ==> ns@[w] <= 65535,
                                path@.len() == j,
                                forall|w: int| 0 <= w < j ==> path@[w] == ns@[w] as u16,
                        {
                            path.push(ns[j] as u16);
                        }
                        proof {
                            assert(65535u64 as nat == u16::MAX as nat);
                            let pieces = parse_num_pieces(
                                split_commas(l.take(first_semi(l))),
                                u16::MAX as nat,
                            );
                            assert(pieces == Some(ns@.map_values(|x: u64| x as nat)));
                            assert(path@ =~= pieces.unwrap().map_values(|n: nat| n as u16));
                            assert(parse_path(l.take(first_semi(l))) == Some(path@));
                        }
                        path
                    },
                }
            };
            proof {
                assert(l.skip(first_semi(l) + 1) == lines@[i as int]@.skip((semi + 1) as int));
            }
            let rec = match parse_entry_exec(&lines[i], semi + 1) {
                Err(e) => {
                    return Err(e);
                },
                Ok(rec) => rec,
            };
            let (author, id, refs) = rec;
            let m = BkNode {
                identifier: id,
                data: if author {
                    crate::bk::BkData::Author(refs)
                } else {
                    crate::bk::BkData::Book(refs)
                },
                children: Vec::new(),
            };
            proof {
                assert(crate::bk::BkNode::children_model(m.children@) =~= Seq::<
                    (u16, SpecNode),
                >::empty());
                assert(m@.wf());
            }
            let got = tree.add_leaf_node(m);
            match got {
                None => {
                    return Err(DecodeError::CorruptIndex);
                },
                Some(p) => {
                    if !paths_equal(&p, &path) {
                        return Err(DecodeError::CorruptIndex);
                    }
                },
            }
        }
        proof {
            assert(decode_lines_spec(tree@, lm, lines@.len() as int) == Ok::<
                SpecTree,
                DecodeError,
            >(tree@));
        }
        Ok(tree)
    }
}


/// Powers of ten.
pub open spec fn pow10(k: nat) -> nat
    decreases k,
{
    if k == 0 {
        1nat
    } else {
        10 * pow10((k - 1) as nat)
    }
}

/// Decimal representations consist of digits.
proof fn lemma_dec_rep_digits(n: nat)
    ensures
        dec_rep(n).len() >= 1,
        forall|i: int| 0 <= i < dec_rep(n).len() ==> is_digit(#[trigger] dec_rep(n)[i]),
    decreases n,
{
    if n < 10 {
        assert(is_digit(dec_rep(n)[0]));
    } else {
        lemma_dec_rep_digits(n / 10);
        assert forall|i: int| 0 <= i < dec_rep(n).len() implies is_digit(
            #[trigger] dec_rep(n)[i],
        ) by {
            if i < dec_rep(n / 10).len() {
                assert(dec_rep(n)[i] == dec_rep(n / 10)[i]);
            } else {
                assert(dec_rep(n)[i] == digit_char(n % 10));
            }
        }
    }
}

/// Reading the digits of a number continues the accumulator exactly.
proof fn lemma_parse_num_rep(n: nat, acc: nat, rest: Seq<char>)
    ensures
        parse_num_loop(dec_rep(n) + rest, acc) == parse_num_loop(
            rest,
            acc * pow10(dec_rep(n).len()) + n,
        ),
    decreases n,
{
    lemma_dec_rep_digits(n);
    if n < 10 {
        let s = dec_rep(n) + rest;
        assert(s.first() == digit_char(n));
        assert(is_digit(digit_char(n)));
        assert(digit_val(digit_char(n)) == n);
        assert(s.drop_first() =~= rest);
        assert(s.len() > 0 && is_digit(s.first()));
        assert(parse_num_loop(s, acc) == parse_num_loop(
            s.drop_first(),
            acc * 10 + digit_val(s.first()),
        ));
        assert(acc * 10 + digit_val(s.first()) == acc * 10 + n);
        assert(parse_num_loop(s, acc) == parse_num_loop(rest, acc * 10 + n));
        assert(dec_rep(n).len() == 1);
        assert(pow10(0) == 1);
        assert(pow10(1) == 10);
        assert(acc * pow10(dec_rep(n).len()) == acc * 10);
    } else {
        let a = dec_rep(n / 10);
        let d = digit_char(n % 10);
        assert(dec_rep(n) =~= a + seq![d]);
        assert(dec_rep(n) + rest =~= a + (seq![d] + rest));
        lemma_parse_num_rep(n / 10, acc, seq![d] + rest);
        let acc1 = acc * pow10(a.len()) + n / 10;
        assert(parse_num_loop(dec_rep(n) + rest, acc) == parse_num_loop(seq![d] + rest, acc1));
        assert((seq![d] + rest).first() == d);
        assert((seq![d] + rest).drop_first() =~= rest);
        assert(digit_val(d) == n % 10);
        assert(parse_num_loop(seq![d] + rest, acc1) == parse_num_loop(rest, acc1 * 10 + n % 10));
        assert(pow10(dec_rep(n).len()) == 10 * pow10(a.len()));
        assert(acc1 * 10 + n % 10 == acc * pow10(dec_rep(n).len()) + n) by (nonlinear_arith)
            requires
                acc1 == acc * pow10(a.len()) + n / 10,
                pow10(dec_rep(n).len()) == 10 * pow10(a.len()),
                n == 10 * (n / 10) + n % 10,
        {
        }
        assert(n == 10 * (n / 10) + n % 10);
    }
}

/// A printed number parses back to itself.
proof fn lemma_parse_full_dec(n: nat)
    ensures
        parse_full_num(dec_rep(n)) == Some(n),
{
    lemma_dec_rep_digits(n);
    assert(dec_rep(n) + Seq::<char>::empty() =~= dec_rep(n));
    lemma_parse_num_rep(n, 0, Seq::<char>::empty());
    assert(parse_num_loop(Seq::<char>::empty(), n) == (n, Seq::<char>::empty()));
    assert(0 * pow10(dec_rep(n).len()) + n == n);
    assert(is_digit(dec_rep(n)[0]));
}

/// A printed `,`-joined list splits back into its printed numbers.
proof fn lemma_split_dec_list(ns: Seq<nat>)
    requires
        ns.len() >= 1,
    ensures
        split_commas(dec_list(ns)).len() == ns.len(),
        forall|i: int|
            0 <= i < ns.len() ==> #[trigger] split_commas(dec_list(ns))[i] == dec_rep(ns[i]),
    decreases ns.len(),
{
    lemma_dec_rep_digits(ns.first());
    lemma_first_at_char(dec_rep(ns.first()), ',');
    if first_at(dec_rep(ns.first()), ',') >= 0 {
        assert(is_digit(dec_rep(ns.first())[first_at(dec_rep(ns.first()), ',')]));
    }
    if ns.len() == 1 {
        assert(dec_list(ns) == dec_rep(ns.first()));
        lemma_split_whole(dec_rep(ns.first()), ',');
        assert(split_commas(dec_list(ns))[0] == dec_rep(ns[0]));
    } else {
        lemma_split_dec_list(ns.drop_first());
        assert(dec_list(ns) == dec_rep(ns.first()) + seq![','] + dec_list(ns.drop_first()));
        lemma_split_append(dec_rep(ns.first()), dec_list(ns.drop_first()), ',');
        assert forall|i: int| 0 <= i < ns.len() implies #[trigger] split_commas(
            dec_list(ns),
        )[i] == dec_rep(ns[i]) by {
            if i == 0 {
            } else {
                assert(split_commas(dec_list(ns))[i] == split_commas(
                    dec_list(ns.drop_first()),
                )[i - 1]);
                assert(ns.drop_first()[i - 1] == ns[i]);
            }
        }
    }
}

/// A printed list of bounded numbers parses back to its values.
proof fn lemma_parse_pieces_dec(ns: Seq<nat>, limit: nat)
    requires
        forall|i: int| 0 <= i < ns.len() ==> #[trigger] ns[i] <= limit,
    ensures
        parse_num_pieces(ns.map_values(|n: nat| dec_rep(n)), limit) == Some(ns),
    decreases ns.len(),
{
    let ps = ns.map_values(|n: nat| dec_rep(n));
    if ns.len() == 0 {
        assert(parse_num_pieces(ps, limit) == Some(Seq::<nat>::empty()));
        assert(ns =~= Seq::<nat>::empty());
    } else {
        assert(ps.first() == dec_rep(ns.first()));
        lemma_parse_full_dec(ns.first());
        assert(ps.drop_first() =~= ns.drop_first().map_values(|n: nat| dec_rep(n)));
        lemma_parse_pieces_dec(ns.drop_first(), limit);
        assert(ns[0] <= limit);
        assert(seq![ns.first()] + ns.drop_first() =~= ns);
    }
}

/// The generic `,`-joined decimal form shared by paths and reference lists.
pub open spec fn dec_list(ns: Seq<nat>) -> Seq<char>
    decreases ns.len(),
{
    if ns.len() == 0 {
        Seq::empty()
    } else if ns.len() == 1 {
        dec_rep(ns.first())
    } else {
        dec_rep(ns.first()) + seq![','] + dec_list(ns.drop_first())
    }
}

/// A reference list prints as the decimal list of its values.
proof fn lemma_refs_rep_as_dec_list(rs: Seq<u32>)
    ensures
        refs_rep(rs) == dec_list(rs.map_values(|r: u32| r as nat)),
    decreases rs.len(),
{
    let ns = rs.map_values(|r: u32| r as nat);
    if rs.len() == 0 {
        assert(refs_rep(rs) =~= dec_list(ns));
    } else if rs.len() == 1 {
        assert(ns.first() == rs.first() as nat);
        assert(refs_rep(rs) =~= dec_list(ns));
    } else {
        lemma_refs_rep_as_dec_list(rs.drop_first());
        assert(rs.drop_first().map_values(|r: u32| r as nat) =~= ns.drop_first());
        assert(ns.first() == rs.first() as nat);
        assert(refs_rep(rs) =~= dec_list(ns));
    }
}

/// A path prints as the decimal list of its values.
proof fn lemma_path_rep_as_dec_list(p: Seq<u16>)
    ensures
        path_rep(p) == dec_list(p.map_values(|k: u16| k as nat)),
    decreases p.len(),
{
    let ns = p.map_values(|k: u16| k as nat);
    if p.len() == 0 {
        assert(path_rep(p) =~= dec_list(ns));
    } else if p.len() == 1 {
        assert(ns.first() == p.first() as nat);
        assert(path_rep(p) =~= dec_list(ns));
    } else {
        lemma_path_rep_as_dec_list(p.drop_first());
        assert(p.drop_first().map_values(|k: u16| k as nat) =~= ns.drop_first());
        assert(ns.first() == p.first() as nat);
        assert(path_rep(p) =~= dec_list(ns));
    }
}

/// A printed reference list parses back to itself.
proof fn lemma_parse_refs_rep(rs: Seq<u32>)
    ensures
        parse_refs(refs_rep(rs)) == Some(rs),
{
    let ns = rs.map_values(|r: u32| r as nat);
    lemma_refs_rep_as_dec_list(rs);
    if rs.len() == 0 {
        assert(refs_rep(rs).len() == 0);
        assert(rs =~= Seq::<u32>::empty());
    } else {
        lemma_split_dec_list(ns);
        assert(split_commas(refs_rep(rs)) =~= ns.map_values(|n: nat| dec_rep(n)));
        assert(forall|i: int| 0 <= i < ns.len() ==> #[trigger] ns[i] <= u32::MAX as nat);
        lemma_parse_pieces_dec(ns, u32::MAX as nat);
        assert(refs_rep(rs).len() > 0) by {
            lemma_dec_rep_digits(ns.first());
            if rs.len() == 1 {
            } else {
            }
        }
        assert(ns.map_values(|n: nat| n as u32) =~= rs);
    }
}

/// A printed path parses back to itself.
proof fn lemma_parse_path_rep(p: Seq<u16>)
    requires
        p.len() >= 1,
    ensures
        parse_path(path_rep(p)) == Some(p),
{
    let ns = p.map_values(|k: u16| k as nat);
    lemma_path_rep_as_dec_list(p);
    lemma_split_dec_list(ns);
    assert(split_commas(path_rep(p)) =~= ns.map_values(|n: nat| dec_rep(n)));
    assert(forall|i: int| 0 <= i < ns.len() ==> #[trigger] ns[i] <= u16::MAX as nat);
    lemma_parse_pieces_dec(ns, u16::MAX as nat);
    assert(path_rep(p).len() > 0) by {
        lemma_dec_rep_digits(ns.first());
    }
    assert(ns.map_values(|n: nat| n as u16) =~= p);
}

/// A printed, escaped identifier parses back to itself, handing over the
/// rest after the terminator.
proof fn lemma_parse_ident_esc(id: Seq<char>, rest: Seq<char>)
    ensures
        parse_ident(esc(id) + seq![';'] + rest) == Some((id, rest)),
    decreases id.len(),
{
    if id.len() == 0 {
        assert(esc(id) + seq![';'] + rest =~= seq![';'] + rest);
        let s = seq![';'] + rest;
        assert(s.first() == ';');
        assert(s.drop_first() =~= rest);
    } else {
        let c = id.first();
        lemma_parse_ident_esc(id.drop_first(), rest);
        let tail = esc(id.drop_first()) + seq![';'] + rest;
        let s = esc(id) + seq![';'] + rest;
        assert(s =~= esc_char(c) + tail);
        if c == '\\' || c == ';' || c == '\n' {
            let e: char = if c == '\\' {
                '\\'
            } else if c == ';' {
                ';'
            } else {
                'n'
            };
            assert(esc_char(c) =~= seq!['\\', e]);
            assert(s.first() == '\\');
            assert(s[1] == e);
            assert(unesc_char(e) == Some(c));
            assert(s.skip(2) =~= tail);
            assert(seq![c] + id.drop_first() =~= id);
        } else {
            assert(esc_char(c) =~= seq![c]);
            assert(s.first() == c);
            assert(s.drop_first() =~= tail);
            assert(seq![c] + id.drop_first() =~= id);
        }
    }
}

/// Escaped text never holds a raw line break, and a raw `;` only as the
/// second half of an escape; in particular its first character is never the
/// author marker unless the identifier starts with it.
proof fn lemma_esc_chars(s: Seq<char>)
    ensures
        forall|i: int| 0 <= i < esc(s).len() ==> (#[trigger] esc(s)[i]) != '\n',
        s.len() > 0 ==> esc(s).len() > 0 && (esc(s)[0] == s[0] || esc(s)[0] == '\\'),
    decreases s.len(),
{
    if s.len() > 0 {
        lemma_esc_chars(s.drop_first());
        assert forall|i: int| 0 <= i < esc(s).len() implies (#[trigger] esc(s)[i]) != '\n' by {
            if i < esc_char(s.first()).len() {
                assert(esc(s)[i] == esc_char(s.first())[i]);
            } else {
                assert(esc(s)[i] == esc(s.drop_first())[i - esc_char(s.first()).len()]);
            }
        }
        assert(esc(s)[0] == esc_char(s.first())[0]);
    }
}

/// A printed entry parses back to its parts.
proof fn lemma_parse_entry_rep(author: bool, ident: Seq<char>, refs: Seq<u32>)
    requires
        ident.len() <= MAX_IDENTIFIER_LEN,
        !author && ident.len() > 0 ==> ident[0] != '@',
    ensures
        parse_entry(entry_line(author, ident, refs)) == Ok::<
            (bool, Seq<char>, Seq<u32>),
            DecodeError,
        >((author, ident, refs)),
{
    let line = entry_line(author, ident, refs);
    lemma_esc_chars(ident);
    lemma_parse_ident_esc(ident, refs_rep(refs));
    lemma_parse_refs_rep(refs);
    if author {
        assert(line.first() == '@');
        assert(line.len() > 0 && line[0] == '@');
        assert(line.drop_first() =~= esc(ident) + seq![';'] + refs_rep(refs));
    } else {
        if ident.len() > 0 {
            assert(line[0] == esc(ident)[0]);
            assert(esc(ident)[0] == ident[0] || esc(ident)[0] == '\\');
            assert(line[0] != '@');
        } else {
            assert(line[0] == ';');
        }
        assert(!(line.len() > 0 && line.first() == '@'));
        assert(line =~= esc(ident) + seq![';'] + refs_rep(refs));
    }
}


/// A `,`-joined decimal list holds only digits and commas.
proof fn lemma_dec_list_chars(ns: Seq<nat>)
    ensures
        forall|i: int|
            0 <= i < dec_list(ns).len() ==> is_digit(#[trigger] dec_list(ns)[i]) || dec_list(
                ns,
            )[i] == ',',
    decreases ns.len(),
{
    if ns.len() == 0 {
    } else if ns.len() == 1 {
        lemma_dec_rep_digits(ns.first());
    } else {
        lemma_dec_rep_digits(ns.first());
        lemma_dec_list_chars(ns.drop_first());
        let a = dec_rep(ns.first());
        let b = dec_list(ns.drop_first());
        assert forall|i: int| 0 <= i < dec_list(ns).len() implies is_digit(
            #[trigger] dec_list(ns)[i],
        ) || dec_list(ns)[i] == ',' by {
            if i < a.len() {
                assert(dec_list(ns)[i] == a[i]);
            } else if i == a.len() {
                assert(dec_list(ns)[i] == ',');
            } else {
                assert(dec_list(ns)[i] == b[i - a.len() - 1]);
            }
        }
    }
}

/// One recorded path's persisted line, without its leading line break.
pub open spec fn line_body(t: SpecTree, i: int) -> Seq<char> {
    let e = t.root.node_at(t.paths[i]).unwrap().entry();
    path_rep(t.paths[i]) + seq![';'] + entry_line(e.author, e.ident, e.refs)
}

/// A printed entry holds no line break.
proof fn lemma_entry_line_clean(author: bool, ident: Seq<char>, refs: Seq<u32>)
    ensures
        first_at(entry_line(author, ident, refs), '\n') < 0,
{
    let line = entry_line(author, ident, refs);
    lemma_esc_chars(ident);
    lemma_refs_rep_as_dec_list(refs);
    lemma_dec_list_chars(refs.map_values(|r: u32| r as nat));
    lemma_first_at_char(line, '\n');
    if first_at(line, '\n') >= 0 {
        let w = first_at(line, '\n');
        assert(line[w] == '\n');
        let mark: Seq<char> = if author {
            seq!['@']
        } else {
            Seq::empty()
        };
        if w < mark.len() {
            assert(line[w] == '@');
        } else if w < mark.len() + esc(ident).len() {
            assert(line[w] == esc(ident)[w - mark.len()]);
        } else if w == mark.len() + esc(ident).len() {
            assert(line[w] == ';');
        } else {
            assert(line[w] == refs_rep(refs)[w - mark.len() - esc(ident).len() - 1]);
        }
    }
}

/// A persisted line holds no line break.
proof fn lemma_line_body_clean(t: SpecTree, i: int)
    requires
        0 <= i < t.paths.len(),
    ensures
        first_at(line_body(t, i), '\n') < 0,
{
    let e = t.root.node_at(t.paths[i]).unwrap().entry();
    let l = line_body(t, i);
    lemma_entry_line_clean(e.author, e.ident, e.refs);
    lemma_path_rep_as_dec_list(t.paths[i]);
    lemma_dec_list_chars(t.paths[i].map_values(|k: u16| k as nat));
    lemma_first_at_char(entry_line(e.author, e.ident, e.refs), '\n');
    lemma_first_at_char(l, '\n');
    if first_at(l, '\n') >= 0 {
        let w = first_at(l, '\n');
        assert(l[w] == '\n');
        if w < path_rep(t.paths[i]).len() {
            assert(l[w] == path_rep(t.paths[i])[w]);
        } else if w == path_rep(t.paths[i]).len() {
            assert(l[w] == ';');
        } else {
            assert(l[w] == entry_line(e.author, e.ident, e.refs)[w - path_rep(
                t.paths[i],
            ).len() - 1]);
        }
    }
}

/// How the persisted text splits back into lines: one piece per node.
proof fn lemma_split_encode_lines(t: SpecTree, i: int, a: Seq<char>)
    requires
        0 <= i <= t.paths.len(),
        first_at(a, '\n') < 0,
    ensures
        split_lines(a + encode_lines(t, i)).len() == 1 + t.paths.len() - i,
        split_lines(a + encode_lines(t, i))[0] == a,
        forall|j: int|
            i <= j < t.paths.len() ==> #[trigger] split_lines(a + encode_lines(t, i))[j - i + 1]
                == line_body(t, j),
    decreases t.paths.len() - i,
{
    if i >= t.paths.len() {
        assert(a + encode_lines(t, i) =~= a);
        lemma_split_whole(a, '\n');
    } else {
        lemma_line_body_clean(t, i);
        lemma_split_encode_lines(t, i + 1, line_body(t, i));
        assert(a + encode_lines(t, i) =~= a + seq!['\n'] + (line_body(t, i) + encode_lines(
            t,
            i + 1,
        )));
        lemma_split_append(a, line_body(t, i) + encode_lines(t, i + 1), '\n');
        assert forall|j: int|
            i <= j < t.paths.len() implies #[trigger] split_lines(
            a + encode_lines(t, i),
        )[j - i + 1] == line_body(t, j) by {
            if j == i {
                assert(split_lines(line_body(t, i) + encode_lines(t, i + 1))[0] == line_body(
                    t,
                    i,
                ));
                assert(split_lines(a + encode_lines(t, i))[1] == split_lines(
                    line_body(t, i) + encode_lines(t, i + 1),
                )[0]);
            } else {
                assert(split_lines(line_body(t, i) + encode_lines(t, i + 1))[(j - (i + 1)) + 1]
                    == line_body(t, j));
                assert(split_lines(a + encode_lines(t, i))[j - i + 1] == split_lines(
                    line_body(t, i) + encode_lines(t, i + 1),
                )[j - i]);
            }
        }
    }
}

/// Replaying the remaining persisted lines onto the reduced tree restores
/// the whole tree.
#[verifier::rlimit(50)]
proof fn lemma_replay(t: SpecTree, k: int, lines: Seq<Seq<char>>)
    requires
        t.wf(),
        0 <= k <= t.paths.len(),
        lines.len() == t.paths.len() + 1,
        forall|j: int| 0 <= j < t.paths.len() ==> #[trigger] lines[j + 1] == line_body(t, j),
    ensures
        decode_lines_spec(t.strip_to(k), lines, k + 1) == Ok::<SpecTree, DecodeError>(t),
    decreases t.paths.len() - k,
{
    lemma_strip(t, k);
    if k == t.paths.len() {
        assert(t.strip_to(k) == t);
    } else {
        lemma_replay(t, k + 1, lines);
        lemma_strip(t, k + 1);
        lemma_strip_step(t, k);
        let tk = t.strip_to(k);
        let tk1 = t.strip_to(k + 1);
        lemma_tree_remove_last(tk1);
        assert(tk1.paths == t.paths.take(k + 1));
        assert(tk1.paths.last() == t.paths[k]);
        assert(tk == tk1.remove_last());
        let p = t.paths[k];
        let mfull = t.root.node_at(p).unwrap();
        let mk1 = tk1.root.node_at(p).unwrap();
        // the line parses back to this node's entry and path
        let l = lines[k + 1];
        assert(l == line_body(t, k));
        let e = mfull.entry();
        crate::bk::lemma_node_at_wf(t.root, p);
        assert(mfull.wf());
        lemma_path_rep_as_dec_list(p);
        lemma_dec_list_chars(p.map_values(|kk: u16| kk as nat));
        lemma_first_at_char(path_rep(p), ';');
        assert(first_at(path_rep(p), ';') < 0) by {
            if first_at(path_rep(p), ';') >= 0 {
                assert(path_rep(p)[first_at(path_rep(p), ';')] == ';');
            }
        }
        let el = entry_line(e.author, e.ident, e.refs);
        assert(l =~= path_rep(p) + seq![';'] + el);
        assert(l[path_rep(p).len() as int] == ';');
        assert(forall|w: int| 0 <= w < path_rep(p).len() ==> #[trigger] l[w] == path_rep(p)[w]);
        lemma_first_at_exact(l, ';', path_rep(p).len() as int);
        assert(first_semi(l) == path_rep(p).len());
        assert(l.take(first_semi(l)) =~= path_rep(p));
        assert(l.skip(first_semi(l) + 1) =~= el);
        assert(p.len() >= 1);
        lemma_parse_path_rep(p);
        lemma_parse_entry_rep(e.author, e.ident, e.refs);
        // replaying the line is exactly re-inserting the removed node
        let m = SpecNode { ident: e.ident, author: e.author, refs: e.refs, children: Seq::empty() };
        assert(mk1.ident == mfull.ident && mk1.author == mfull.author && mk1.refs == mfull.refs);
        assert(mk1.children.len() == 0);
        assert(mk1.children =~= Seq::<(u16, SpecNode)>::empty());
        assert(m =~= mk1);
        assert(tk.root.add_spec(m) == (tk1.root, Some(p)));
        assert(decode_lines_spec(tk, lines, k + 1) == decode_lines_spec(
            SpecTree { root: tk1.root, paths: tk.paths.push(p) },
            lines,
            k + 2,
        ));
        assert(tk.paths.push(p) =~= t.paths.take(k + 1));
        assert(SpecTree { root: tk1.root, paths: tk.paths.push(p) } =~= tk1);
    }
}

/// The round-trip law: decoding what a well-formed tree encodes to yields
/// that tree back, exactly.
pub proof fn lemma_round_trip(t: SpecTree)
    requires
        t.wf(),
    ensures
        decode_spec(encode_spec(t)) == Ok::<SpecTree, DecodeError>(t),
{
    let root_line = entry_line(t.root.author, t.root.ident, t.root.refs);
    lemma_entry_line_clean(t.root.author, t.root.ident, t.root.refs);
    lemma_split_encode_lines(t, 0, root_line);
    let lines = split_lines(encode_spec(t));
    assert(lines.len() == t.paths.len() + 1);
    assert(lines[0] == root_line);
    assert forall|j: int| 0 <= j < t.paths.len() implies #[trigger] lines[j + 1] == line_body(
        t,
        j,
    ) by {
        assert(split_lines(root_line + encode_lines(t, 0))[j - 0 + 1] == line_body(t, j));
    }
    lemma_parse_entry_rep(t.root.author, t.root.ident, t.root.refs);
    let t0 = SpecTree {
        root: SpecNode {
            ident: t.root.ident,
            author: t.root.author,
            refs: t.root.refs,
            children: Seq::empty(),
        },
        paths: Seq::empty(),
    };
    lemma_strip(t, 0);
    let ts = t.strip_to(0);
    assert(ts.paths == t.paths.take(0));
    assert(ts.paths =~= Seq::<Seq<u16>>::empty());
    // a one-node tree has no children under its root
    assert(ts.root.count() == 1);
    assert(ts.root.children.len() == 0) by {
        lemma_el_len_ge(ts.root.children);
        assert(ts.root.entries()[0] == ts.root.entry());
    }
    assert(t0.root.children =~= ts.root.children);
    assert(t0.root =~= ts.root);
    assert(t0.paths =~= ts.paths);
    assert(t0 =~= ts);
    lemma_replay(t, 0, lines);
}

} // verus!
