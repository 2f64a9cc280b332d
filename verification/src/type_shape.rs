//! The lifetimes that a field's type mentions, read from the shape of the
//! type: which lifetimes a field borrows when its `borrow` option names
//! none.
use vstd::prelude::*;
use crate::args::ArgsError;
use crate::borrow::{borrow_lifetimes, chars_eq, chars_of, spec_borrow_lifetimes, string_views, BorrowOverride};

verus! {

/// The shape of a type, as far as its lifetimes go.
#[derive(Debug)]
pub enum TypeShape {
    /// `[T]`
    Slice(Box<TypeShape>),
    /// `[T; N]`
    Array(Box<TypeShape>),
    /// `*const T` or `*mut T`
    Ptr(Box<TypeShape>),
    /// `&'a T`, with its lifetime (written `'a`) where it has one.
    Reference(Option<String>, Box<TypeShape>),
    /// `(A, B, ...)`
    Tuple(Vec<TypeShape>),
    /// `<Q as Trait>::a::b<X, Y>`: the qualifying type where there is one,
    /// and the angle-bracketed arguments of each segment (none for a segment
    /// without them).
    Path(Option<Box<TypeShape>>, Vec<Vec<GenericArgShape>>),
    /// `(T)`
    Paren(Box<TypeShape>),
    /// A type in an invisible group.
    Group(Box<TypeShape>),
    /// `m!(...)`: the tokens inside the macro call.
    Macro(Vec<TokenShape>),
    /// Any other type (function pointers, trait objects, `impl Trait`, `!`,
    /// `_`, ...), whose lifetimes are not collected.
    Other,
}

/// An angle-bracketed argument of a path segment.
#[derive(Debug)]
pub enum GenericArgShape {
    /// A lifetime, written `'a`.
    Lifetime(String),
    /// A type.
    Type(TypeShape),
    /// `Name = T`
    AssocType(TypeShape),
    /// Any other argument (a constant, a bound, ...).
    Other,
}

/// A token of a macro call's input.
#[derive(Debug)]
pub enum TokenShape {
    /// A punctuation character, and whether it is joined to the next token.
    Punct(char, bool),
    /// An identifier, as written.
    Ident(String),
    /// A delimited group of tokens.
    Group(Vec<TokenShape>),
    /// A literal.
    Literal,
}

/// The lifetimes that the type `ty` mentions.
pub open spec fn spec_type_lifetimes(ty: TypeShape) -> Set<Seq<char>>
    decreases ty,
{
    match ty {
        TypeShape::Slice(e) => spec_type_lifetimes(*e),
        TypeShape::Array(e) => spec_type_lifetimes(*e),
        TypeShape::Ptr(e) => spec_type_lifetimes(*e),
        TypeShape::Reference(l, e) => match l {
            Some(name) => spec_type_lifetimes(*e).insert(name@),
            None => spec_type_lifetimes(*e),
        },
        TypeShape::Tuple(es) => spec_types_lifetimes(es@),
        TypeShape::Path(q, segs) => match q {
            Some(qt) => spec_type_lifetimes(*qt).union(spec_segments_lifetimes(segs@)),
            None => spec_segments_lifetimes(segs@),
        },
        TypeShape::Paren(e) => spec_type_lifetimes(*e),
        TypeShape::Group(e) => spec_type_lifetimes(*e),
        TypeShape::Macro(ts) => spec_token_lifetimes(ts@),
        TypeShape::Other => Set::empty(),
    }
}

/// The lifetimes that the types `tys` mention.
pub open spec fn spec_types_lifetimes(tys: Seq<TypeShape>) -> Set<Seq<char>>
    decreases tys,
{
    if tys.len() == 0 {
        Set::empty()
    } else {
        spec_type_lifetimes(tys[0]).union(spec_types_lifetimes(tys.subrange(1, tys.len() as int)))
    }
}

/// The lifetimes that the segment arguments `segs` mention.
pub open spec fn spec_segments_lifetimes(segs: Seq<Vec<GenericArgShape>>) -> Set<Seq<char>>
    decreases segs,
{
    if segs.len() == 0 {
        Set::empty()
    } else {
        spec_args_lifetimes(segs[0]@).union(spec_segments_lifetimes(segs.subrange(1, segs.len() as int)))
    }
}

/// The lifetimes that the arguments `args` mention.
pub open spec fn spec_args_lifetimes(args: Seq<GenericArgShape>) -> Set<Seq<char>>
    decreases args,
{
    if args.len() == 0 {
        Set::empty()
    } else {
        let first = match args[0] {
            GenericArgShape::Lifetime(name) => set![name@],
            GenericArgShape::Type(t) => spec_type_lifetimes(t),
            GenericArgShape::AssocType(t) => spec_type_lifetimes(t),
            GenericArgShape::Other => Set::empty(),
        };
        first.union(spec_args_lifetimes(args.subrange(1, args.len() as int)))
    }
}

/// The lifetimes in the tokens `ts`: an apostrophe joined to the identifier
/// after it (both are taken, whatever comes second), and those inside
/// groups.
pub open spec fn spec_token_lifetimes(ts: Seq<TokenShape>) -> Set<Seq<char>>
    decreases ts,
{
    if ts.len() == 0 {
        Set::empty()
    } else {
        match ts[0] {
            TokenShape::Punct(c, joint) => if c == '\'' && joint && ts.len() >= 2 {
                let rest = spec_token_lifetimes(ts.subrange(2, ts.len() as int));
                match ts[1] {
                    TokenShape::Ident(name) => rest.insert(seq!['\''] + name@),
                    _ => rest,
                }
            } else {
                spec_token_lifetimes(ts.subrange(1, ts.len() as int))
            },
            TokenShape::Group(g) => spec_token_lifetimes(g@).union(spec_token_lifetimes(ts.subrange(1, ts.len() as int))),
            _ => spec_token_lifetimes(ts.subrange(1, ts.len() as int)),
        }
    }
}

/// The lifetimes of each type of `tys` are lifetimes of `tys`.
proof fn lemma_types_member(tys: Seq<TypeShape>, i: int)
    requires
        0 <= i < tys.len(),
    ensures
        spec_type_lifetimes(tys[i]).subset_of(spec_types_lifetimes(tys)),
    decreases i,
{
    if i > 0 {
        let rest = tys.subrange(1, tys.len() as int);
        assert(rest[i - 1] == tys[i]);
        lemma_types_member(rest, i - 1);
    }
}

/// The lifetimes that the argument `args[j]` mentions, or is, are lifetimes
/// of `args`.
proof fn lemma_args_member(args: Seq<GenericArgShape>, j: int)
    requires
        0 <= j < args.len(),
    ensures
        args[j] matches GenericArgShape::Lifetime(l) ==> spec_args_lifetimes(args).contains(l@),
        args[j] matches GenericArgShape::Type(t) ==> spec_type_lifetimes(t).subset_of(spec_args_lifetimes(args)),
        args[j] matches GenericArgShape::AssocType(t) ==> spec_type_lifetimes(t).subset_of(spec_args_lifetimes(args)),
    decreases j,
{
    if j > 0 {
        let rest = args.subrange(1, args.len() as int);
        assert(rest[j - 1] == args[j]);
        lemma_args_member(rest, j - 1);
    }
}

/// The lifetimes of each segment of `segs` are lifetimes of `segs`.
proof fn lemma_segments_member(segs: Seq<Vec<GenericArgShape>>, i: int)
    requires
        0 <= i < segs.len(),
    ensures
        spec_args_lifetimes(segs[i]@).subset_of(spec_segments_lifetimes(segs)),
    decreases i,
{
    if i > 0 {
        let rest = segs.subrange(1, segs.len() as int);
        assert(rest[i - 1] == segs[i]);
        lemma_segments_member(rest, i - 1);
    }
}

/// A type mentions every lifetime that one of its parts mentions: the
/// lifetime of a reference, the lifetime arguments of a path's segments,
/// and every lifetime of an element, referenced, qualifying, tuple member,
/// argument or associated type; and a type without parts mentions none.
pub proof fn lemma_type_lifetimes_parts(ty: TypeShape)
    ensures
        ty matches TypeShape::Reference(Some(l), _) ==> spec_type_lifetimes(ty).contains(l@),
        ty matches TypeShape::Reference(_, e) ==> spec_type_lifetimes(*e).subset_of(spec_type_lifetimes(ty)),
        ty matches TypeShape::Slice(e) ==> spec_type_lifetimes(*e).subset_of(spec_type_lifetimes(ty)),
        ty matches TypeShape::Array(e) ==> spec_type_lifetimes(*e).subset_of(spec_type_lifetimes(ty)),
        ty matches TypeShape::Ptr(e) ==> spec_type_lifetimes(*e).subset_of(spec_type_lifetimes(ty)),
        ty matches TypeShape::Paren(e) ==> spec_type_lifetimes(*e).subset_of(spec_type_lifetimes(ty)),
        ty matches TypeShape::Group(e) ==> spec_type_lifetimes(*e).subset_of(spec_type_lifetimes(ty)),
        ty matches TypeShape::Tuple(es) ==> forall|i: int|
            0 <= i < es@.len() ==> #[trigger] spec_type_lifetimes(es@[i]).subset_of(spec_type_lifetimes(ty)),
        ty matches TypeShape::Path(Some(q), _) ==> spec_type_lifetimes(*q).subset_of(spec_type_lifetimes(ty)),
        ty matches TypeShape::Path(_, segs) ==> forall|i: int, j: int|
            0 <= i < segs@.len() && 0 <= j < segs@[i]@.len() ==> {
                let a = #[trigger] segs@[i]@[j];
                &&& a matches GenericArgShape::Lifetime(l) ==> spec_type_lifetimes(ty).contains(l@)
                &&& a matches GenericArgShape::Type(t) ==> spec_type_lifetimes(t).subset_of(spec_type_lifetimes(ty))
                &&& a matches GenericArgShape::AssocType(t) ==> spec_type_lifetimes(t).subset_of(
                    spec_type_lifetimes(ty),
                )
            },
        ty is Other ==> spec_type_lifetimes(ty).is_empty(),
{
    match ty {
        TypeShape::Tuple(es) => {
            assert forall|i: int| 0 <= i < es@.len() implies #[trigger] spec_type_lifetimes(es@[i]).subset_of(
                spec_type_lifetimes(ty),
            ) by {
                lemma_types_member(es@, i);
            }
        },
        TypeShape::Path(q, segs) => {
            assert forall|i: int, j: int| 0 <= i < segs@.len() && 0 <= j < segs@[i]@.len() implies {
                let a = #[trigger] segs@[i]@[j];
                &&& a matches GenericArgShape::Lifetime(l) ==> spec_type_lifetimes(ty).contains(l@)
                &&& a matches GenericArgShape::Type(t) ==> spec_type_lifetimes(t).subset_of(spec_type_lifetimes(ty))
                &&& a matches GenericArgShape::AssocType(t) ==> spec_type_lifetimes(t).subset_of(
                    spec_type_lifetimes(ty),
                )
            } by {
                lemma_segments_member(segs@, i);
                lemma_args_member(segs@[i]@, j);
            }
        },
        _ => {},
    }
}

/// The tokens of a macro call mention the lifetime that an apostrophe joined
/// to an identifier at their front makes, the lifetimes inside a group at
/// their front, and every lifetime of the tokens after the first lifetime or
/// the first other token.
pub proof fn lemma_token_lifetimes_parts(ts: Seq<TokenShape>)
    requires
        ts.len() > 0,
    ensures
        ts.len() >= 2 && ts[0] == TokenShape::Punct('\'', true) ==> spec_token_lifetimes(ts.subrange(2, ts.len() as int))
            .subset_of(spec_token_lifetimes(ts)),
        ts.len() >= 2 && ts[0] == TokenShape::Punct('\'', true) ==> (ts[1] matches TokenShape::Ident(n)
            ==> spec_token_lifetimes(ts).contains(seq!['\''] + n@)),
        !(ts.len() >= 2 && ts[0] == TokenShape::Punct('\'', true)) ==> spec_token_lifetimes(
            ts.subrange(1, ts.len() as int),
        ).subset_of(spec_token_lifetimes(ts)),
        ts[0] matches TokenShape::Group(g) ==> spec_token_lifetimes(g@).subset_of(spec_token_lifetimes(ts)),
{
}

/// The lifetimes that `collect_lifetimes` gives for a type hold those it
/// gives for each part of the type, and the lifetime of a reference.
pub proof fn lemma_collected_lifetimes_nest(ty: TypeShape, part: TypeShape, collected: Seq<Seq<char>>)
    requires
        collected.to_set() == spec_type_lifetimes(ty),
        (ty matches TypeShape::Reference(_, e) && *e == part) || (ty matches TypeShape::Slice(e) && *e == part)
            || (ty matches TypeShape::Array(e) && *e == part) || (ty matches TypeShape::Ptr(e) && *e == part)
            || (ty matches TypeShape::Paren(e) && *e == part) || (ty matches TypeShape::Group(e) && *e == part)
            || (ty matches TypeShape::Path(Some(q), _) && *q == part)
            || (ty matches TypeShape::Tuple(es) && es@.contains(part)),
    ensures
        forall|l: Seq<char>| spec_type_lifetimes(part).contains(l) ==> collected.contains(l),
        ty matches TypeShape::Reference(Some(n), _) ==> collected.contains(n@),
{
    lemma_type_lifetimes_parts(ty);
    if let TypeShape::Tuple(es) = ty {
        if es@.contains(part) {
            let i = choose|i: int| 0 <= i < es@.len() && es@[i] == part;
            assert(spec_type_lifetimes(es@[i]).subset_of(spec_type_lifetimes(ty)));
        }
    }
    assert forall|l: Seq<char>| spec_type_lifetimes(part).contains(l) implies collected.contains(l) by {
        assert(collected.to_set().contains(l));
    }
    if let TypeShape::Reference(Some(n), _) = ty {
        assert(collected.to_set().contains(n@));
    }
}

/// `a` comes before `b` in the order of strings: character by character,
/// by code point, a prefix before what it begins.
pub open spec fn chars_lt(a: Seq<char>, b: Seq<char>) -> bool
    decreases a.len(),
{
    if a.len() == 0 {
        b.len() > 0
    } else if b.len() == 0 {
        false
    } else if a[0] != b[0] {
        (a[0] as int) < (b[0] as int)
    } else {
        chars_lt(a.drop_first(), b.drop_first())
    }
}

/// Each string of `v` comes before the ones after it.
pub open spec fn strictly_sorted(v: Seq<Seq<char>>) -> bool {
    forall|i: int, j: int| 0 <= i < j < v.len() ==> chars_lt(#[trigger] v[i], #[trigger] v[j])
}

/// No string comes before itself.
pub proof fn lemma_chars_lt_irreflexive(a: Seq<char>)
    ensures
        !chars_lt(a, a),
    decreases a.len(),
{
    if a.len() > 0 {
        lemma_chars_lt_irreflexive(a.drop_first());
    }
}

/// The order of strings is transitive.
pub proof fn lemma_chars_lt_transitive(a: Seq<char>, b: Seq<char>, c: Seq<char>)
    requires
        chars_lt(a, b),
        chars_lt(b, c),
    ensures
        chars_lt(a, c),
    decreases a.len(),
{
    if a.len() > 0 && b.len() > 0 && c.len() > 0 && a[0] == b[0] && b[0] == c[0] {
        lemma_chars_lt_transitive(a.drop_first(), b.drop_first(), c.drop_first());
    }
}

/// Of two different strings, one comes before the other.
pub proof fn lemma_chars_lt_total(a: Seq<char>, b: Seq<char>)
    requires
        a != b,
    ensures
        chars_lt(a, b) || chars_lt(b, a),
    decreases a.len(),
{
    if a.len() == 0 {
        assert(b.len() > 0) by {
            if b.len() == 0 {
                assert(a =~= b);
            }
        }
    } else if b.len() > 0 && a[0] == b[0] {
        if a.drop_first() == b.drop_first() {
            assert(a.len() == b.len()) by {
                assert(a.drop_first().len() == b.drop_first().len());
            }
            assert(a =~= b) by {
                assert forall|k: int| 0 <= k < a.len() implies a[k] == b[k] by {
                    if k > 0 {
                        assert(a[k] == a.drop_first()[k - 1]);
                        assert(b[k] == b.drop_first()[k - 1]);
                    }
                }
            }
        }
        lemma_chars_lt_total(a.drop_first(), b.drop_first());
    } else if b.len() > 0 {
        assert((a[0] as int) != (b[0] as int));
    }
}

/// `a` comes before `b` in the order of strings.
fn chars_less(a: &Vec<char>, b: &Vec<char>) -> (r: bool)
    ensures
        r == chars_lt(a@, b@),
{
    let mut i: usize = 0;
    proof {
        assert(a@.skip(0) =~= a@);
        assert(b@.skip(0) =~= b@);
    }
    while i < a.len() && i < b.len()
        invariant
            i <= a@.len(),
            i <= b@.len(),
            chars_lt(a@, b@) == chars_lt(a@.skip(i as int), b@.skip(i as int)),
        decreases a@.len() - i,
    {
        if a[i] != b[i] {
            proof {
                assert(a@.skip(i as int)[0] == a@[i as int]);
                assert(b@.skip(i as int)[0] == b@[i as int]);
            }
            return a[i] < b[i];
        }
        proof {
            assert(a@.skip(i as int).drop_first() =~= a@.skip(i + 1));
            assert(b@.skip(i as int).drop_first() =~= b@.skip(i + 1));
        }
        i = i + 1;
    }
    i == a.len() && i < b.len()
}

/// The first position of `out` whose string does not come before `x`.
fn lifetime_position(out: &Vec<String>, x: &Vec<char>) -> (k: usize)
    ensures
        k <= out@.len(),
        forall|a: int| 0 <= a < k ==> chars_lt(#[trigger] string_views(out@)[a], x@),
        k < out@.len() ==> !chars_lt(string_views(out@)[k as int], x@),
{
    let mut k: usize = 0;
    while k < out.len()
        invariant
            k <= out@.len(),
            forall|a: int| 0 <= a < k ==> chars_lt(#[trigger] string_views(out@)[a], x@),
        decreases out@.len() - k,
    {
        let c = chars_of(&out[k]);
        if !chars_less(&c, x) {
            return k;
        }
        k = k + 1;
    }
    k
}

/// Adds the lifetime `l` to the sorted lifetimes `out`, where it is not
/// there yet.
fn insert_lifetime(out: &mut Vec<String>, l: String)
    requires
        strictly_sorted(string_views(old(out)@)),
    ensures
        strictly_sorted(string_views(final(out)@)),
        string_views(final(out)@).to_set() == string_views(old(out)@).to_set().insert(l@),
{
    let ghost v = string_views(out@);
    let lc = chars_of(&l);
    let k = lifetime_position(out, &lc);
    if k < out.len() {
        let c = chars_of(&out[k]);
        if chars_eq(&c, &lc) {
            proof {
                assert(v.contains(l@) && v[k as int] == l@);
                assert(v.to_set().insert(l@) =~= v.to_set());
            }
            return;
        }
    }
    out.insert(k, l);
    let ghost w = string_views(out@);
    proof {
        assert(w =~= v.insert(k as int, l@));
        assert forall|i: int, j: int| 0 <= i < j < w.len() implies chars_lt(#[trigger] w[i], #[trigger] w[j]) by {
            if j < k {
            } else if j == k {
                assert(w[i] == v[i]);
            } else if i < k {
                assert(w[i] == v[i] && w[j] == v[j - 1]);
                assert(chars_lt(v[i], v[j - 1]));
            } else if i == k {
                assert(w[j] == v[j - 1]);
                lemma_chars_lt_total(v[k as int], l@);
                if j - 1 > k {
                    assert(chars_lt(v[k as int], v[j - 1]));
                    lemma_chars_lt_transitive(l@, v[k as int], v[j - 1]);
                }
            } else {
                assert(w[i] == v[i - 1] && w[j] == v[j - 1]);
                assert(chars_lt(v[i - 1], v[j - 1]));
            }
        }
        assert(w.to_set() =~= v.to_set().insert(l@)) by {
            assert forall|a: Seq<char>| #[trigger] w.contains(a) implies v.contains(a) || a == l@ by {
                let n = choose|n: int| 0 <= n < w.len() && w[n] == a;
                if n < k {
                    assert(v[n] == a);
                } else if n > k {
                    assert(v[n - 1] == a);
                }
            }
            assert forall|a: Seq<char>| #[trigger] v.contains(a) implies w.contains(a) by {
                let n = choose|n: int| 0 <= n < v.len() && v[n] == a;
                if n < k {
                    assert(w[n] == a);
                } else {
                    assert(w[n + 1] == a);
                }
            }
            assert(w[k as int] == l@);
        }
    }
}

/// Adds the lifetimes that `ty` mentions to the sorted lifetimes `out`.
fn walk_type(ty: &TypeShape, out: &mut Vec<String>)
    requires
        strictly_sorted(string_views(old(out)@)),
    ensures
        strictly_sorted(string_views(final(out)@)),
        string_views(final(out)@).to_set() == string_views(old(out)@).to_set().union(spec_type_lifetimes(*ty)),
    decreases ty,
{
    let ghost before = string_views(out@).to_set();
    match ty {
        TypeShape::Slice(e) => walk_type(e, out),
        TypeShape::Array(e) => walk_type(e, out),
        TypeShape::Ptr(e) => walk_type(e, out),
        TypeShape::Paren(e) => walk_type(e, out),
        TypeShape::Group(e) => walk_type(e, out),
        TypeShape::Reference(l, e) => {
            match l {
                Some(name) => {
                    insert_lifetime(out, name.clone());
                    walk_type(e, out);
                    proof {
                        assert(string_views(out@).to_set() =~= before.union(spec_type_lifetimes(**e).insert(name@)));
                    }
                },
                None => walk_type(e, out),
            }
        },
        TypeShape::Tuple(es) => walk_types(es, out),
        TypeShape::Path(q, segs) => {
            match q {
                Some(qt) => {
                    walk_type(qt, out);
                    walk_segments(segs, out);
                    proof {
                        assert(string_views(out@).to_set() =~= before.union(
                            spec_type_lifetimes(**qt).union(spec_segments_lifetimes(segs@)),
                        ));
                    }
                },
                None => walk_segments(segs, out),
            }
        },
        TypeShape::Macro(ts) => walk_tokens(ts, out),
        TypeShape::Other => {
            proof {
                assert(before.union(Set::<Seq<char>>::empty()) =~= before);
            }
        },
    }
}

/// Adds the lifetimes that the types `tys` mention to the sorted lifetimes
/// `out`.
fn walk_types(tys: &Vec<TypeShape>, out: &mut Vec<String>)
    requires
        strictly_sorted(string_views(old(out)@)),
    ensures
        strictly_sorted(string_views(final(out)@)),
        string_views(final(out)@).to_set() == string_views(old(out)@).to_set().union(spec_types_lifetimes(tys@)),
    decreases tys,
{
    let ghost before = string_views(out@).to_set();
    let n = tys.len();
    let mut i: usize = 0;
    proof {
        assert(tys@.subrange(0, n as int) =~= tys@);
    }
    while i < n
        invariant
            n == tys@.len(),
            i <= n,
            strictly_sorted(string_views(out@)),
            string_views(out@).to_set().union(spec_types_lifetimes(tys@.subrange(i as int, n as int)))
                == before.union(spec_types_lifetimes(tys@)),
        decreases n - i,
    {
        let ghost rest = tys@.subrange(i as int, n as int);
        let ghost mid = string_views(out@).to_set();
        proof {
            assert(rest.subrange(1, rest.len() as int) =~= tys@.subrange(i + 1, n as int));
            assert(rest[0] == tys@[i as int]);
        }
        walk_type(&tys[i], out);
        proof {
            assert(string_views(out@).to_set().union(spec_types_lifetimes(tys@.subrange(i + 1, n as int)))
                =~= mid.union(spec_types_lifetimes(rest)));
        }
        i = i + 1;
    }
    proof {
        assert(spec_types_lifetimes(tys@.subrange(n as int, n as int)) =~= Set::<Seq<char>>::empty());
        assert(string_views(out@).to_set().union(Set::<Seq<char>>::empty()) =~= string_views(out@).to_set());
    }
}

/// Adds the lifetimes that the segment arguments `segs` mention to the
/// sorted lifetimes `out`.
fn walk_segments(segs: &Vec<Vec<GenericArgShape>>, out: &mut Vec<String>)
    requires
        strictly_sorted(string_views(old(out)@)),
    ensures
        strictly_sorted(string_views(final(out)@)),
        string_views(final(out)@).to_set() == string_views(old(out)@).to_set().union(spec_segments_lifetimes(segs@)),
    decreases segs,
{
    let ghost before = string_views(out@).to_set();
    let n = segs.len();
    let mut i: usize = 0;
    proof {
        assert(segs@.subrange(0, n as int) =~= segs@);
    }
    while i < n
        invariant
            n == segs@.len(),
            i <= n,
            strictly_sorted(string_views(out@)),
            string_views(out@).to_set().union(spec_segments_lifetimes(segs@.subrange(i as int, n as int)))
                == before.union(spec_segments_lifetimes(segs@)),
        decreases n - i,
    {
        let ghost rest = segs@.subrange(i as int, n as int);
        let ghost mid = string_views(out@).to_set();
        proof {
            assert(rest.subrange(1, rest.len() as int) =~= segs@.subrange(i + 1, n as int));
            assert(rest[0] == segs@[i as int]);
        }
        walk_args(&segs[i], out);
        proof {
            assert(string_views(out@).to_set().union(spec_segments_lifetimes(segs@.subrange(i + 1, n as int)))
                =~= mid.union(spec_segments_lifetimes(rest)));
        }
        i = i + 1;
    }
    proof {
        assert(spec_segments_lifetimes(segs@.subrange(n as int, n as int)) =~= Set::<Seq<char>>::empty());
        assert(string_views(out@).to_set().union(Set::<Seq<char>>::empty()) =~= string_views(out@).to_set());
    }
}

/// Adds the lifetimes that the arguments `args` mention to the sorted
/// lifetimes `out`.
fn walk_args(args: &Vec<GenericArgShape>, out: &mut Vec<String>)
    requires
        strictly_sorted(string_views(old(out)@)),
    ensures
        strictly_sorted(string_views(final(out)@)),
        string_views(final(out)@).to_set() == string_views(old(out)@).to_set().union(spec_args_lifetimes(args@)),
    decreases args,
{
    let ghost before = string_views(out@).to_set();
    let n = args.len();
    let mut i: usize = 0;
    proof {
        assert(args@.subrange(0, n as int) =~= args@);
    }
    while i < n
        invariant
            n == args@.len(),
            i <= n,
            strictly_sorted(string_views(out@)),
            string_views(out@).to_set().union(spec_args_lifetimes(args@.subrange(i as int, n as int)))
                == before.union(spec_args_lifetimes(args@)),
        decreases n - i,
    {
        let ghost rest = args@.subrange(i as int, n as int);
        let ghost mid = string_views(out@).to_set();
        proof {
            assert(rest.subrange(1, rest.len() as int) =~= args@.subrange(i + 1, n as int));
            assert(rest[0] == args@[i as int]);
        }
        match &args[i] {
            GenericArgShape::Lifetime(name) => {
                insert_lifetime(out, name.clone());
                proof {
                    assert(mid.insert(name@) =~= mid.union(set![name@]));
                }
            },
            GenericArgShape::Type(t) => {
                proof {
                    assert(decreases_to!(args => args@[i as int]));
                }
                walk_type(t, out);
            },
            GenericArgShape::AssocType(t) => {
                proof {
                    assert(decreases_to!(args => args@[i as int]));
                }
                walk_type(t, out);
            },
            GenericArgShape::Other => {
                proof {
                    assert(mid.union(Set::<Seq<char>>::empty()) =~= mid);
                }
            },
        }
        proof {
            assert(string_views(out@).to_set().union(spec_args_lifetimes(args@.subrange(i + 1, n as int)))
                =~= mid.union(spec_args_lifetimes(rest)));
        }
        i = i + 1;
    }
    proof {
        assert(spec_args_lifetimes(args@.subrange(n as int, n as int)) =~= Set::<Seq<char>>::empty());
        assert(string_views(out@).to_set().union(Set::<Seq<char>>::empty()) =~= string_views(out@).to_set());
    }
}

/// The lifetime with the name `name`: an apostrophe before it.
fn lifetime_named(name: &String) -> (r: String)
    ensures
        r@ == seq!['\''] + name@,
{
    let mut r = "'".to_owned();
    r.append(name.as_str());
    proof {
        reveal_strlit("'");
        assert("'"@ =~= seq!['\'']);
    }
    r
}

/// Adds the lifetimes in the tokens `ts` to the sorted lifetimes `out`.
fn walk_tokens(ts: &Vec<TokenShape>, out: &mut Vec<String>)
    requires
        strictly_sorted(string_views(old(out)@)),
    ensures
        strictly_sorted(string_views(final(out)@)),
        string_views(final(out)@).to_set() == string_views(old(out)@).to_set().union(spec_token_lifetimes(ts@)),
    decreases ts,
{
    let ghost before = string_views(out@).to_set();
    let n = ts.len();
    let mut i: usize = 0;
    proof {
        assert(ts@.subrange(0, n as int) =~= ts@);
    }
    while i < n
        invariant
            n == ts@.len(),
            i <= n,
            strictly_sorted(string_views(out@)),
            string_views(out@).to_set().union(spec_token_lifetimes(ts@.subrange(i as int, n as int)))
                == before.union(spec_token_lifetimes(ts@)),
        decreases n - i,
    {
        let ghost rest = ts@.subrange(i as int, n as int);
        let ghost mid = string_views(out@).to_set();
        proof {
            assert(rest.subrange(1, rest.len() as int) =~= ts@.subrange(i + 1, n as int));
            assert(rest[0] == ts@[i as int]);
        }
        match &ts[i] {
            TokenShape::Punct(c, joint) => {
                if *c == '\'' && *joint && i + 1 < n {
                    proof {
                        assert(rest.subrange(2, rest.len() as int) =~= ts@.subrange(i + 2, n as int));
                        assert(rest[1] == ts@[i + 1]);
                    }
                    match &ts[i + 1] {
                        TokenShape::Ident(name) => {
                            let l = lifetime_named(name);
                            insert_lifetime(out, l);
                        },
                        _ => {
                            proof {
                                assert(mid.union(Set::<Seq<char>>::empty()) =~= mid);
                            }
                        },
                    }
                    proof {
                        assert(string_views(out@).to_set().union(spec_token_lifetimes(ts@.subrange(i + 2, n as int)))
                            =~= mid.union(spec_token_lifetimes(rest)));
                    }
                    i = i + 2;
                } else {
                    proof {
                        assert(string_views(out@).to_set().union(spec_token_lifetimes(ts@.subrange(i + 1, n as int)))
                            =~= mid.union(spec_token_lifetimes(rest)));
                    }
                    i = i + 1;
                }
            },
            TokenShape::Group(g) => {
                proof {
                    assert(decreases_to!(ts => ts@[i as int]));
                }
                walk_tokens(g, out);
                proof {
                    assert(string_views(out@).to_set().union(spec_token_lifetimes(ts@.subrange(i + 1, n as int)))
                        =~= mid.union(spec_token_lifetimes(rest)));
                }
                i = i + 1;
            },
            _ => {
                proof {
                    assert(string_views(out@).to_set().union(spec_token_lifetimes(ts@.subrange(i + 1, n as int)))
                        =~= mid.union(spec_token_lifetimes(rest)));
                }
                i = i + 1;
            },
        }
    }
    proof {
        assert(spec_token_lifetimes(ts@.subrange(n as int, n as int)) =~= Set::<Seq<char>>::empty());
        assert(string_views(out@).to_set().union(Set::<Seq<char>>::empty()) =~= string_views(out@).to_set());
    }
}

/// The lifetimes that the type `ty` mentions, each once, in the order of
/// strings.
pub fn collect_lifetimes(ty: &TypeShape) -> (r: Vec<String>)
    ensures
        string_views(r@).to_set() == spec_type_lifetimes(*ty),
        string_views(r@).no_duplicates(),
        strictly_sorted(string_views(r@)),
{
    let mut out: Vec<String> = Vec::new();
    proof {
        assert(string_views(out@).to_set() =~= Set::<Seq<char>>::empty());
    }
    walk_type(ty, &mut out);
    proof {
        let v = string_views(out@);
        assert(Set::<Seq<char>>::empty().union(spec_type_lifetimes(*ty)) =~= spec_type_lifetimes(*ty));
        assert forall|i: int, j: int| 0 <= i < v.len() && 0 <= j < v.len() && i != j implies v[i] != v[j] by {
            lemma_chars_lt_irreflexive(v[i]);
            if i < j {
                assert(chars_lt(v[i], v[j]));
            } else {
                assert(chars_lt(v[j], v[i]));
            }
        }
    }
    out
}

/// The lifetimes that a field of type `ty` borrows, given its `borrow`
/// option: [`borrow_lifetimes`] over the lifetimes that `ty` mentions, in
/// the order of strings.
pub fn type_borrow_lifetimes(borrow: &Option<BorrowOverride>, ty: &TypeShape) -> (r: Result<
    Option<Vec<String>>,
    ArgsError,
>)
    ensures
        exists|field: Seq<Seq<char>>|
            {
                &&& field.to_set() == spec_type_lifetimes(*ty)
                &&& strictly_sorted(field)
                &&& match spec_borrow_lifetimes(*borrow, field) {
                    Ok(None) => r matches Ok(None),
                    Ok(Some(ls)) => r matches Ok(Some(v)) && string_views(v@) == ls,
                    Err(k) => r matches Err(e) && e.kind == k && e.field == 0,
                }
            },
{
    let field = collect_lifetimes(ty);
    let r = borrow_lifetimes(borrow, &field);
    proof {
        let f = string_views(field@);
        assert(f.to_set() == spec_type_lifetimes(*ty) && strictly_sorted(f));
    }
    r
}

} // verus!
