//! The `borrow` option of a field: which lifetimes its values borrow from
//! the bytes they are read from.
//!
//! The lifetimes are written `'a + 'b` (see [`crate::lifetime_list`]).
use vstd::prelude::*;
use crate::args::{ArgsError, ArgsErrorKind};
use crate::lifetime_list::{lifetime_list, read_lifetime_list};

verus! {

/// The `borrow` option of a field: given alone, so that every lifetime of
/// the field's type is borrowed, or with the lifetimes to borrow.
#[derive(Debug, Clone)]
pub enum BorrowOverride {
    Inherit,
    Explicit(String),
}


/// The lifetimes of `field` that `names` holds, in the order of `field`.
pub open spec fn named_lifetimes(field: Seq<Seq<char>>, names: Seq<Seq<char>>) -> Seq<Seq<char>>
    decreases field.len(),
{
    if field.len() == 0 {
        seq![]
    } else {
        let rest = named_lifetimes(field.drop_last(), names);
        if names.contains(field.last()) {
            rest.push(field.last())
        } else {
            rest
        }
    }
}

/// The views of some strings.
pub open spec fn string_views(v: Seq<String>) -> Seq<Seq<char>> {
    v.map_values(|s: String| s@)
}

/// The views of some character vectors.
pub open spec fn chars_views(v: Seq<Vec<char>>) -> Seq<Seq<char>> {
    v.map_values(|s: Vec<char>| s@)
}

/// The lifetimes that a field with the lifetimes `field` borrows: none
/// without a `borrow` option; all of them for `borrow` alone, which needs at
/// least one; for `borrow = "..."`, those that the list names, which must
/// be a list of distinct lifetimes, not empty, each one of the field's.
pub open spec fn spec_borrow_lifetimes(borrow: Option<BorrowOverride>, field: Seq<Seq<char>>) -> Result<
    Option<Seq<Seq<char>>>,
    ArgsErrorKind,
> {
    match borrow {
        None => Ok(None),
        Some(BorrowOverride::Inherit) => if field.len() == 0 {
            Err(ArgsErrorKind::NoBorrowedLifetime)
        } else {
            Ok(Some(field))
        },
        Some(BorrowOverride::Explicit(s)) => match lifetime_list(s@) {
            None => Err(ArgsErrorKind::BadBorrowedLifetimes),
            Some(names) => if !names.no_duplicates() {
                Err(ArgsErrorKind::BadBorrowedLifetimes)
            } else if names.len() == 0 {
                Err(ArgsErrorKind::NoBorrowedLifetime)
            } else if exists|k: int| 0 <= k < names.len() && !field.contains(#[trigger] names[k]) {
                Err(ArgsErrorKind::LifetimeNotInField)
            } else {
                Ok(Some(named_lifetimes(field, names)))
            },
        },
    }
}

/// The characters of `s`.
pub(crate) fn chars_of(s: &String) -> (r: Vec<char>)
    ensures
        r@ == s@,
{
    let t = s.as_str();
    let n = t.unicode_len();
    let mut r: Vec<char> = Vec::new();
    let mut i: usize = 0;
    while i < n
        invariant
            n == t@.len(),
            t@ == s@,
            i <= n,
            r@ == t@.take(i as int),
        decreases n - i,
    {
        let c = t.get_char(i);
        r.push(c);
        proof {
            assert(t@.take(i + 1) =~= t@.take(i as int).push(c));
        }
        i = i + 1;
    }
    proof {
        assert(t@.take(n as int) =~= t@);
    }
    r
}

/// `a` and `b` hold the same characters.
pub(crate) fn chars_eq(a: &Vec<char>, b: &Vec<char>) -> (r: bool)
    ensures
        r == (a@ == b@),
{
    if a.len() != b.len() {
        return false;
    }
    let mut i: usize = 0;
    while i < a.len()
        invariant
            a@.len() == b@.len(),
            i <= a@.len(),
            forall|k: int| 0 <= k < i ==> a@[k] == b@[k],
        decreases a@.len() - i,
    {
        if a[i] != b[i] {
            return false;
        }
        i = i + 1;
    }
    proof {
        assert(a@ =~= b@);
    }
    true
}

/// One of the first `n` entries of `list` holds the characters of `x`.
pub(crate) fn contains_chars(list: &Vec<Vec<char>>, n: usize, x: &Vec<char>) -> (r: bool)
    requires
        n <= list@.len(),
    ensures
        r == chars_views(list@).take(n as int).contains(x@),
{
    let ghost vs = chars_views(list@).take(n as int);
    let mut i: usize = 0;
    while i < n
        invariant
            n <= list@.len(),
            vs == chars_views(list@).take(n as int),
            i <= n,
            forall|k: int| 0 <= k < i ==> vs[k] != x@,
        decreases n - i,
    {
        if chars_eq(&list[i], x) {
            proof {
                assert(vs[i as int] == x@);
            }
            return true;
        }
        i = i + 1;
    }
    false
}

/// Two entries of `list` hold the same characters.
fn has_repeat(list: &Vec<Vec<char>>) -> (r: bool)
    ensures
        r == !chars_views(list@).no_duplicates(),
{
    let ghost vs = chars_views(list@);
    let mut j: usize = 0;
    while j < list.len()
        invariant
            vs == chars_views(list@),
            j <= list@.len(),
            vs.take(j as int).no_duplicates(),
        decreases list@.len() - j,
    {
        if contains_chars(list, j, &list[j]) {
            proof {
                let k = choose|k: int| 0 <= k < j && vs.take(j as int)[k] == vs[j as int];
                assert(vs[k] == vs[j as int]);
            }
            return true;
        }
        proof {
            assert forall|a: int, b: int|
                0 <= a < j + 1 && 0 <= b < j + 1 && a != b implies #[trigger] vs.take(j + 1)[a] != #[trigger] vs.take(j + 1)[b] by {
                if a == j {
                    assert(vs.take(j as int)[b] == vs[b]);
                } else if b == j {
                    assert(vs.take(j as int)[a] == vs[a]);
                } else {
                    assert(vs.take(j as int)[a] == vs[a]);
                    assert(vs.take(j as int)[b] == vs[b]);
                }
            }
        }
        j = j + 1;
    }
    proof {
        assert(vs.take(list@.len() as int) =~= vs);
    }
    false
}

/// The lifetimes that a field borrows, given its `borrow` option and the
/// lifetimes of its type (each written with its apostrophe, as `'a`).
/// Explicit lifetimes come back in the order of `field_lifetimes`. An error
/// names the field at position 0: the caller, which knows the field, sets
/// its position.
pub fn borrow_lifetimes(borrow: &Option<BorrowOverride>, field_lifetimes: &Vec<String>) -> (r: Result<
    Option<Vec<String>>,
    ArgsError,
>)
    ensures
        match spec_borrow_lifetimes(*borrow, string_views(field_lifetimes@)) {
            Ok(None) => r matches Ok(None),
            Ok(Some(ls)) => r matches Ok(Some(v)) && string_views(v@) == ls,
            Err(k) => r matches Err(e) && e.kind == k && e.field == 0,
        },
{
    let ghost fv = string_views(field_lifetimes@);
    match borrow {
        None => Ok(None),
        Some(BorrowOverride::Inherit) => {
            if field_lifetimes.len() == 0 {
                Err(ArgsError { field: 0, kind: ArgsErrorKind::NoBorrowedLifetime })
            } else {
                let mut out: Vec<String> = Vec::new();
                let mut i: usize = 0;
                while i < field_lifetimes.len()
                    invariant
                        i <= field_lifetimes@.len(),
                        string_views(out@) == string_views(field_lifetimes@).take(i as int),
                    decreases field_lifetimes@.len() - i,
                {
                    let l = field_lifetimes[i].clone();
                    let ghost before = string_views(out@);
                    out.push(l);
                    proof {
                        assert(string_views(out@) =~= before.push(l@));
                        assert(string_views(field_lifetimes@).take(i + 1) =~= string_views(field_lifetimes@).take(
                            i as int,
                        ).push(l@));
                    }
                    i = i + 1;
                }
                proof {
                    assert(string_views(field_lifetimes@).take(field_lifetimes@.len() as int) =~= fv);
                }
                Ok(Some(out))
            }
        },
        Some(BorrowOverride::Explicit(s)) => {
            let chars = chars_of(s);
            let names = match read_lifetime_list(&chars) {
                Some(v) => v,
                None => {
                    return Err(ArgsError { field: 0, kind: ArgsErrorKind::BadBorrowedLifetimes });
                },
            };
            let ghost nv = chars_views(names@);
            if has_repeat(&names) {
                return Err(ArgsError { field: 0, kind: ArgsErrorKind::BadBorrowedLifetimes });
            }
            if names.len() == 0 {
                return Err(ArgsError { field: 0, kind: ArgsErrorKind::NoBorrowedLifetime });
            }
            let mut field: Vec<Vec<char>> = Vec::new();
            let mut i: usize = 0;
            while i < field_lifetimes.len()
                invariant
                    i <= field_lifetimes@.len(),
                    fv == string_views(field_lifetimes@),
                    chars_views(field@) == fv.take(i as int),
                    lifetime_list(s@) == Some(nv),
                    nv.no_duplicates(),
                    nv.len() > 0,
                decreases field_lifetimes@.len() - i,
            {
                let c = chars_of(&field_lifetimes[i]);
                let ghost before = chars_views(field@);
                field.push(c);
                proof {
                    assert(chars_views(field@) =~= before.push(c@));
                    assert(fv.take(i + 1) =~= fv.take(i as int).push(c@));
                }
                i = i + 1;
            }
            proof {
                assert(fv.take(field_lifetimes@.len() as int) =~= fv);
                assert(chars_views(field@).take(field@.len() as int) =~= fv);
            }
            let mut k: usize = 0;
            while k < names.len()
                invariant
                    nv == chars_views(names@),
                    chars_views(field@) == fv,
                    field@.len() == fv.len(),
                    k <= names@.len(),
                    forall|j: int| 0 <= j < k ==> fv.contains(#[trigger] nv[j]),
                    fv == string_views(field_lifetimes@),
                    *borrow == Some(BorrowOverride::Explicit(*s)),
                    lifetime_list(s@) == Some(nv),
                    nv.no_duplicates(),
                    nv.len() > 0,
                decreases names@.len() - k,
            {
                if !contains_chars(&field, field.len(), &names[k]) {
                    proof {
                        assert(chars_views(field@).take(field@.len() as int) =~= fv);
                        assert(nv[k as int] == names@[k as int]@);
                        assert(!fv.contains(nv[k as int]));
                        assert(0 <= k < nv.len() && !fv.contains(nv[k as int]));
                    }
                    return Err(ArgsError { field: 0, kind: ArgsErrorKind::LifetimeNotInField });
                }
                proof {
                    assert(chars_views(field@).take(field@.len() as int) =~= fv);
                }
                k = k + 1;
            }
            let mut out: Vec<String> = Vec::new();
            let mut i: usize = 0;
            while i < field_lifetimes.len()
                invariant
                    nv == chars_views(names@),
                    chars_views(field@) == fv,
                    field@.len() == fv.len(),
                    fv == string_views(field_lifetimes@),
                    i <= field_lifetimes@.len(),
                    string_views(out@) == named_lifetimes(fv.take(i as int), nv),
                    lifetime_list(s@) == Some(nv),
                    nv.no_duplicates(),
                    nv.len() > 0,
                    forall|j: int| 0 <= j < nv.len() ==> fv.contains(#[trigger] nv[j]),
                decreases field_lifetimes@.len() - i,
            {
                proof {
                    assert(fv.take(i + 1).drop_last() =~= fv.take(i as int));
                    assert(chars_views(names@).take(names@.len() as int) =~= nv);
                }
                if contains_chars(&names, names.len(), &field[i]) {
                    let l = field_lifetimes[i].clone();
                    let ghost before = string_views(out@);
                    out.push(l);
                    proof {
                        assert(string_views(out@) =~= before.push(l@));
                    }
                }
                i = i + 1;
            }
            proof {
                assert(fv.take(field_lifetimes@.len() as int) =~= fv);
            }
            Ok(Some(out))
        },
    }
}

} // verus!
