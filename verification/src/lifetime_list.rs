//! Reading a list of lifetimes such as `'a + 'b`, the way Rust's lexer
//! splits the text: names are Unicode identifiers, and white space and
//! comments may stand between the parts.
use vstd::prelude::*;
use crate::borrow::chars_views;

verus! {

/// Whether `c` has the Unicode property `XID_Start`.
pub uninterp spec fn xid_start(c: char) -> bool;

/// Whether `c` has the Unicode property `XID_Continue`.
pub uninterp spec fn xid_continue(c: char) -> bool;

/// `unicode_ident::is_xid_start`: whether `c` has the Unicode property
/// `XID_Start`. The property is a table of the Unicode standard; the
/// contract only names the answer.
#[verifier::external_body]
fn is_xid_start(c: char) -> (r: bool)
    ensures
        r == xid_start(c),
{
    unicode_ident::is_xid_start(c)
}

/// `unicode_ident::is_xid_continue`: whether `c` has the Unicode property
/// `XID_Continue`. The property is a table of the Unicode standard; the
/// contract only names the answer.
#[verifier::external_body]
fn is_xid_continue(c: char) -> (r: bool)
    ensures
        r == xid_continue(c),
{
    unicode_ident::is_xid_continue(c)
}

/// White space between the parts of a list: the characters with the Unicode
/// property `White_Space` (what `char::is_whitespace` tests), and the
/// left-to-right and right-to-left marks.
pub open spec fn is_blank(c: char) -> bool {
    let n = c as u32;
    ||| n == 0x20
    ||| 0x09 <= n <= 0x0d
    ||| n == 0x85
    ||| n == 0xa0
    ||| n == 0x1680
    ||| 0x2000 <= n <= 0x200a
    ||| n == 0x2028
    ||| n == 0x2029
    ||| n == 0x202f
    ||| n == 0x205f
    ||| n == 0x3000
    ||| n == 0x200e
    ||| n == 0x200f
}

/// A character that can begin a name.
pub open spec fn is_name_start(c: char) -> bool {
    c == '_' || xid_start(c)
}

/// The names that a raw lifetime (`'r#name`) cannot have.
pub open spec fn is_reserved_raw(name: Seq<char>) -> bool {
    ||| name == seq!['_']
    ||| name == seq!['s', 'u', 'p', 'e', 'r']
    ||| name == seq!['s', 'e', 'l', 'f']
    ||| name == seq!['S', 'e', 'l', 'f']
    ||| name == seq!['c', 'r', 'a', 't', 'e']
}

/// `s` has `c` at position `i`.
pub open spec fn char_at(s: Seq<char>, i: int, c: char) -> bool {
    0 <= i < s.len() && s[i] == c
}

/// Where the reader of a lifetime list stands.
#[derive(Debug, Clone, Copy, PartialEq, Eq, Structural)]
pub enum ListState {
    /// Between the parts of the list: `true` where a lifetime may come
    /// next, `false` where a `+` or the end may.
    Gap(bool),
    /// Inside a `//` comment, in a gap of the given kind.
    LineComment(bool),
    /// Inside a `/* */` comment nested to the given depth, in a gap of the
    /// given kind.
    BlockComment(bool, usize),
    /// Inside the name of a lifetime; `true` for a raw one (`'r#name`).
    Name(bool),
}

/// How far the reader is from moving on to the next character.
pub open spec fn state_rank(st: ListState) -> nat {
    if st is Name {
        1
    } else {
        0
    }
}

/// The lifetimes (each written as `'name`, or `'r#name` for a raw one) that
/// `s` lists from position `i` on, read in state `st` with the lifetime
/// `cur` under way and the lifetimes `acc` read before; `None` where `s` is
/// not such a list. Doc comments (`///`, `//!`, `/**`, `/*!`) stand for
/// attributes, which a list cannot hold.
pub open spec fn read_list(s: Seq<char>, i: nat, st: ListState, cur: Seq<char>, acc: Seq<Seq<char>>) -> Option<Seq<Seq<char>>>
    decreases s.len() - i, state_rank(st),
{
    match st {
        ListState::Name(raw) => if i < s.len() && xid_continue(s[i as int]) {
            read_list(s, i + 1, ListState::Name(raw), cur.push(s[i as int]), acc)
        } else if raw && is_reserved_raw(cur.skip(3)) {
            None
        } else {
            read_list(s, i, ListState::Gap(false), seq![], acc.push(cur))
        },
        _ => if i >= s.len() {
            if st is BlockComment {
                None
            } else {
                Some(acc)
            }
        } else {
            let c = s[i as int];
            let j = i as int;
            match st {
                ListState::Gap(want) => if c == '/' && char_at(s, j + 1, '/') {
                    if (char_at(s, j + 2, '/') && !char_at(s, j + 3, '/')) || char_at(s, j + 2, '!') {
                        None
                    } else {
                        read_list(s, i + 2, ListState::LineComment(want), cur, acc)
                    }
                } else if c == '/' && char_at(s, j + 1, '*') {
                    if (char_at(s, j + 2, '*') && !char_at(s, j + 3, '/') && !char_at(s, j + 3, '*'))
                        || char_at(s, j + 2, '!') {
                        None
                    } else {
                        read_list(s, i + 2, ListState::BlockComment(want, 1), cur, acc)
                    }
                } else if is_blank(c) {
                    read_list(s, i + 1, ListState::Gap(want), cur, acc)
                } else if want && c == '\'' {
                    if char_at(s, j + 1, 'r') && char_at(s, j + 2, '#') {
                        if j + 3 < s.len() && is_name_start(s[j + 3]) {
                            read_list(s, i + 4, ListState::Name(true), seq!['\'', 'r', '#', s[j + 3]], acc)
                        } else {
                            None
                        }
                    } else if j + 1 < s.len() && is_name_start(s[j + 1]) {
                        read_list(s, i + 2, ListState::Name(false), seq!['\'', s[j + 1]], acc)
                    } else {
                        None
                    }
                } else if !want && c == '+' {
                    read_list(s, i + 1, ListState::Gap(true), cur, acc)
                } else {
                    None
                },
                ListState::LineComment(want) => if c == '\n' {
                    read_list(s, i + 1, ListState::Gap(want), cur, acc)
                } else {
                    read_list(s, i + 1, ListState::LineComment(want), cur, acc)
                },
                ListState::BlockComment(want, d) => if c == '/' && char_at(s, j + 1, '*') {
                    read_list(s, i + 2, ListState::BlockComment(want, (d + 1) as usize), cur, acc)
                } else if c == '*' && char_at(s, j + 1, '/') {
                    if d <= 1 {
                        read_list(s, i + 2, ListState::Gap(want), cur, acc)
                    } else {
                        read_list(s, i + 2, ListState::BlockComment(want, (d - 1) as usize), cur, acc)
                    }
                } else {
                    read_list(s, i + 1, ListState::BlockComment(want, d), cur, acc)
                },
                ListState::Name(_) => None,
            }
        },
    }
}

/// The lifetimes that `s` lists, joined by `+`, with white space and
/// comments around them and a `+` after the last one allowed, after a byte
/// order mark at the start; `None` where `s` is not such a list.
pub open spec fn lifetime_list(s: Seq<char>) -> Option<Seq<Seq<char>>> {
    if char_at(s, 0, '\u{feff}') {
        read_list(s, 1, ListState::Gap(true), seq![], seq![])
    } else {
        read_list(s, 0, ListState::Gap(true), seq![], seq![])
    }
}

/// `s` has `c` at position `i + k`.
fn peek(s: &Vec<char>, i: usize, k: usize, c: char) -> (r: bool)
    requires
        i < s@.len(),
        k <= 3,
    ensures
        r == char_at(s@, i + k, c),
{
    if k < s.len() - i {
        s[i + k] == c
    } else {
        false
    }
}

/// `c` is white space between the parts of a list.
fn blank(c: char) -> (r: bool)
    ensures
        r == is_blank(c),
{
    let n = c as u32;
    n == 0x20 || (0x09 <= n && n <= 0x0d) || n == 0x85 || n == 0xa0 || n == 0x1680 || (0x2000 <= n && n
        <= 0x200a) || n == 0x2028 || n == 0x2029 || n == 0x202f || n == 0x205f || n == 0x3000 || n
        == 0x200e || n == 0x200f
}

/// The name after the `'r#` of a raw lifetime is one that it cannot have.
fn reserved_raw(cur: &Vec<char>) -> (r: bool)
    requires
        cur@.len() >= 3,
    ensures
        r == is_reserved_raw(cur@.skip(3)),
{
    let ghost name = cur@.skip(3);
    let n = cur.len() - 3;
    proof {
        assert(name.len() == n);
        assert(seq!['_'].len() == 1 && seq!['_'][0] == '_');
        assert(seq!['s', 'e', 'l', 'f'].len() == 4 && seq!['S', 'e', 'l', 'f'].len() == 4);
        assert(seq!['s', 'u', 'p', 'e', 'r'].len() == 5 && seq!['c', 'r', 'a', 't', 'e'].len() == 5);
        if n == 1 && name == seq!['_'] {
            assert(name[0] == cur@[3]);
        }
    }
    if n == 1 {
        let r = cur[3] == '_';
        proof {
            if r {
                assert(name =~= seq!['_']);
            }
        }
        r
    } else if n == 4 {
        let r = (cur[3] == 's' || cur[3] == 'S') && cur[4] == 'e' && cur[5] == 'l' && cur[6] == 'f';
        proof {
            if r {
                if cur[3] == 's' {
                    assert(name =~= seq!['s', 'e', 'l', 'f']);
                } else {
                    assert(name =~= seq!['S', 'e', 'l', 'f']);
                }
            } else {
                assert(name != seq!['s', 'e', 'l', 'f'] && name != seq!['S', 'e', 'l', 'f']) by {
                    if name == seq!['s', 'e', 'l', 'f'] {
                        assert(name[0] == cur@[3] && name[1] == cur@[4] && name[2] == cur@[5] && name[3] == cur@[6]);
                    }
                    if name == seq!['S', 'e', 'l', 'f'] {
                        assert(name[0] == cur@[3] && name[1] == cur@[4] && name[2] == cur@[5] && name[3] == cur@[6]);
                    }
                }
            }
        }
        r
    } else if n == 5 {
        let sup = cur[3] == 's' && cur[4] == 'u' && cur[5] == 'p' && cur[6] == 'e' && cur[7] == 'r';
        let cra = cur[3] == 'c' && cur[4] == 'r' && cur[5] == 'a' && cur[6] == 't' && cur[7] == 'e';
        proof {
            if sup {
                assert(name =~= seq!['s', 'u', 'p', 'e', 'r']);
            }
            if cra {
                assert(name =~= seq!['c', 'r', 'a', 't', 'e']);
            }
            if name == seq!['s', 'u', 'p', 'e', 'r'] || name == seq!['c', 'r', 'a', 't', 'e'] {
                assert(name[0] == cur@[3] && name[1] == cur@[4] && name[2] == cur@[5] && name[3] == cur@[6]
                    && name[4] == cur@[7]);
            }
        }
        sup || cra
    } else {
        false
    }
}

/// Reads the lifetime list `s`.
pub(crate) fn read_lifetime_list(s: &Vec<char>) -> (r: Option<Vec<Vec<char>>>)
    ensures
        match lifetime_list(s@) {
            None => r is None,
            Some(names) => r matches Some(v) && chars_views(v@) == names,
        },
{
    let mut st = ListState::Gap(true);
    let mut cur: Vec<char> = Vec::new();
    let mut acc: Vec<Vec<char>> = Vec::new();
    let mut i: usize = if s.len() > 0 && s[0] == '\u{feff}' {
        1
    } else {
        0
    };
    proof {
        assert(cur@ =~= Seq::<char>::empty());
        assert(chars_views(acc@) =~= Seq::<Seq<char>>::empty());
    }
    while i < s.len()
        invariant
            i <= s@.len(),
            lifetime_list(s@) == read_list(s@, i as nat, st, cur@, chars_views(acc@)),
            st matches ListState::BlockComment(_, d) ==> d <= i,
            st matches ListState::Name(raw) ==> cur@.len() >= 2 && (raw ==> cur@.len() >= 4),
        decreases s@.len() - i, state_rank(st),
    {
        let c = s[i];
        proof {
            assert(c == s@[i as int]);
        }
        match st {
            ListState::Name(raw) => {
                if is_xid_continue(c) {
                    cur.push(c);
                    i = i + 1;
                } else {
                    if raw && reserved_raw(&cur) {
                        return None;
                    }
                    let ghost before = chars_views(acc@);
                    let name = cur;
                    cur = Vec::new();
                    acc.push(name);
                    proof {
                        assert(chars_views(acc@) =~= before.push(name@));
                        assert(cur@ =~= Seq::<char>::empty());
                    }
                    st = ListState::Gap(false);
                }
            },
            ListState::Gap(want) => {
                if c == '/' && peek(s, i, 1, '/') {
                    if (peek(s, i, 2, '/') && !peek(s, i, 3, '/')) || peek(s, i, 2, '!') {
                        return None;
                    }
                    st = ListState::LineComment(want);
                    i = i + 2;
                } else if c == '/' && peek(s, i, 1, '*') {
                    if (peek(s, i, 2, '*') && !peek(s, i, 3, '/') && !peek(s, i, 3, '*')) || peek(s, i, 2, '!') {
                        return None;
                    }
                    st = ListState::BlockComment(want, 1);
                    i = i + 2;
                } else if blank(c) {
                    i = i + 1;
                } else if want && c == '\'' {
                    if peek(s, i, 1, 'r') && peek(s, i, 2, '#') {
                        if 3 < s.len() - i && (s[i + 3] == '_' || is_xid_start(s[i + 3])) {
                            let d = s[i + 3];
                            cur = Vec::new();
                            cur.push('\'');
                            cur.push('r');
                            cur.push('#');
                            cur.push(d);
                            proof {
                                assert(cur@ =~= seq!['\'', 'r', '#', d]);
                            }
                            st = ListState::Name(true);
                            i = i + 4;
                        } else {
                            return None;
                        }
                    } else if 1 < s.len() - i && (s[i + 1] == '_' || is_xid_start(s[i + 1])) {
                        let d = s[i + 1];
                        cur = Vec::new();
                        cur.push('\'');
                        cur.push(d);
                        proof {
                            assert(cur@ =~= seq!['\'', d]);
                        }
                        st = ListState::Name(false);
                        i = i + 2;
                    } else {
                        return None;
                    }
                } else if !want && c == '+' {
                    st = ListState::Gap(true);
                    i = i + 1;
                } else {
                    return None;
                }
            },
            ListState::LineComment(want) => {
                if c == '\n' {
                    st = ListState::Gap(want);
                }
                i = i + 1;
            },
            ListState::BlockComment(want, d) => {
                if c == '/' && peek(s, i, 1, '*') {
                    st = ListState::BlockComment(want, d + 1);
                    i = i + 2;
                } else if c == '*' && peek(s, i, 1, '/') {
                    if d <= 1 {
                        st = ListState::Gap(want);
                    } else {
                        st = ListState::BlockComment(want, d - 1);
                    }
                    i = i + 2;
                } else {
                    i = i + 1;
                }
            },
        }
    }
    match st {
        ListState::BlockComment(_, _) => None,
        ListState::Name(raw) => {
            if raw && reserved_raw(&cur) {
                return None;
            }
            let ghost before = chars_views(acc@);
            proof {
                assert(read_list(s@, i as nat, ListState::Gap(false), seq![], before.push(cur@)) == Some(
                    before.push(cur@),
                ));
            }
            acc.push(cur);
            proof {
                assert(chars_views(acc@) =~= before.push(cur@));
            }
            Some(acc)
        },
        _ => Some(acc),
    }
}

} // verus!
