//! Keypath parsing and candidate generation.
//!
//! A keypath is a dotted string such as `a.b.c`. Parsing splits it on the
//! delimiter, trims each component, and rejects empty components and
//! components containing a path separator. A parsed keypath then yields
//! candidate interpretations: each splits the components into a leading
//! file-path prefix and a trailing chain of in-file keys, longest prefix
//! first, expanded by a list of file extensions.

use vstd::arithmetic::div_mod::{
    lemma_div_is_ordered, lemma_div_pos_is_pos, lemma_mod_bound, lemma_multiply_divide_lt,
};
use vstd::arithmetic::mul::{lemma_mul_basics, lemma_mul_is_commutative, lemma_mul_upper_bound};
use vstd::prelude::*;
use vstd::string::*;

verus! {

/// Error type for keypath parsing.
#[derive(Debug, PartialEq, Eq)]
pub enum KeyPathParseError {
    /// The keypath string has an empty component or a component with a
    /// path separator in it.
    InvalidKeyPath,
}

/// The whitespace characters that are trimmed from the ends of a keypath
/// component.
pub open spec fn is_space(c: char) -> bool {
    c == ' ' || c == '\t' || c == '\n' || c == '\r'
}

/// True when no character of `s` is `x`.
pub open spec fn char_free(s: Seq<char>, x: char) -> bool {
    forall|j: int| 0 <= j < s.len() ==> s[j] != x
}

/// `s` with its leading whitespace removed.
pub open spec fn trim_front(s: Seq<char>) -> Seq<char>
    decreases s.len(),
{
    if s.len() > 0 && is_space(s[0]) {
        trim_front(s.drop_first())
    } else {
        s
    }
}

/// `s` with its trailing whitespace removed.
pub open spec fn trim_back(s: Seq<char>) -> Seq<char>
    decreases s.len(),
{
    if s.len() > 0 && is_space(s[s.len() - 1]) {
        trim_back(s.drop_last())
    } else {
        s
    }
}

/// `s` with whitespace removed from both ends.
pub open spec fn trim_spec(s: Seq<char>) -> Seq<char> {
    trim_back(trim_front(s))
}

/// The split of `s` on the delimiter character: the component strings
/// between consecutive delimiters, in order. Splitting the empty string
/// gives one empty component, as Rust's `split` does.
pub open spec fn split_dots(s: Seq<char>) -> Seq<Seq<char>>
    decreases s.len(),
{
    if s.len() == 0 {
        seq![Seq::<char>::empty()]
    } else if s[0] == '.' {
        seq![Seq::<char>::empty()] + split_dots(s.drop_first())
    } else {
        let rest = split_dots(s.drop_first());
        seq![seq![s[0]] + rest[0]] + rest.drop_first()
    }
}

/// The components of `cs` joined with the separator `sep` between each
/// pair of neighbours.
pub open spec fn join_sep(cs: Seq<Seq<char>>, sep: char) -> Seq<char>
    decreases cs.len(),
{
    if cs.len() == 0 {
        Seq::<char>::empty()
    } else if cs.len() == 1 {
        cs[0]
    } else {
        cs[0] + seq![sep] + join_sep(cs.drop_first(), sep)
    }
}

/// A raw (untrimmed) component is acceptable when it trims to something
/// non-empty and contains neither the delimiter nor a path separator.
pub open spec fn comp_ok(c: Seq<char>) -> bool {
    &&& trim_spec(c).len() > 0
    &&& char_free(c, '.')
    &&& char_free(c, '/')
}

/// A raw keypath string is valid when every component of its split is
/// acceptable.
pub open spec fn keypath_valid(s: Seq<char>) -> bool {
    forall|k: int| 0 <= k < split_dots(s).len() ==> comp_ok(#[trigger] split_dots(s)[k])
}

/// The canonical components of a raw keypath string: each component of the
/// split, trimmed.
pub open spec fn keypath_components(s: Seq<char>) -> Seq<Seq<char>> {
    split_dots(s).map_values(|c: Seq<char>| trim_spec(c))
}

/// A canonical component: non-empty, free of the delimiter and the path
/// separator, with no whitespace at either end.
pub open spec fn comp_wf(c: Seq<char>) -> bool {
    &&& c.len() > 0
    &&& char_free(c, '.')
    &&& char_free(c, '/')
    &&& !is_space(c[0])
    &&& !is_space(c[c.len() - 1])
}

/// The views of a sequence of strings.
pub open spec fn views(ss: Seq<String>) -> Seq<Seq<char>> {
    Seq::new(ss.len(), |i: int| ss[i]@)
}

/// If everything before position `a` is whitespace and position `a` (if
/// any) is not, then trimming the front of `s` drops exactly `s[..a]`.
proof fn lemma_trim_front_skip(s: Seq<char>, a: int)
    requires
        0 <= a <= s.len(),
        forall|j: int| 0 <= j < a ==> is_space(s[j]),
        a == s.len() || !is_space(s[a]),
    ensures
        trim_front(s) == s.subrange(a, s.len() as int),
    decreases a,
{
    if a == 0 {
        assert(trim_front(s) == s.subrange(0, s.len() as int)) by {
            assert(s.subrange(0, s.len() as int) =~= s);
        }
    } else {
        let t = s.drop_first();
        assert(forall|j: int| 0 <= j < a - 1 ==> is_space(t[j]));
        lemma_trim_front_skip(t, a - 1);
        assert(t.subrange(a - 1, t.len() as int) =~= s.subrange(a, s.len() as int));
    }
}

/// If everything from position `b` on is whitespace and position `b - 1`
/// (if any) is not, then trimming the back of `s` drops exactly `s[b..]`.
proof fn lemma_trim_back_skip(s: Seq<char>, b: int)
    requires
        0 <= b <= s.len(),
        forall|j: int| b <= j < s.len() ==> is_space(s[j]),
        b == 0 || !is_space(s[b - 1]),
    ensures
        trim_back(s) == s.subrange(0, b),
    decreases s.len(),
{
    if b == s.len() {
        if s.len() > 0 && is_space(s[s.len() - 1]) {
            assert(!is_space(s[b - 1]));
            assert(false);
        }
        assert(s.subrange(0, b) =~= s);
    } else {
        let t = s.drop_last();
        lemma_trim_back_skip(t, b);
        assert(t.subrange(0, b) =~= s.subrange(0, b));
    }
}

/// Trimming a sequence that already has no whitespace at either end
/// changes nothing.
proof fn lemma_trim_trimmed(c: Seq<char>)
    requires
        c.len() > 0,
        !is_space(c[0]),
        !is_space(c[c.len() - 1]),
    ensures
        trim_spec(c) == c,
{
    lemma_trim_front_skip(c, 0);
    assert(c.subrange(0, c.len() as int) =~= c);
    lemma_trim_back_skip(c, c.len() as int);
}

/// A split always has at least one component.
proof fn lemma_split_dots_len(s: Seq<char>)
    ensures
        split_dots(s).len() >= 1,
    decreases s.len(),
{
    if s.len() > 0 {
        lemma_split_dots_len(s.drop_first());
    }
}

/// No component of a split contains the delimiter.
proof fn lemma_split_dots_free(s: Seq<char>)
    ensures
        forall|k: int|
            0 <= k < split_dots(s).len() ==> char_free(#[trigger] split_dots(s)[k], '.'),
    decreases s.len(),
{
    if s.len() > 0 {
        lemma_split_dots_free(s.drop_first());
        lemma_split_dots_len(s.drop_first());
    }
}

/// Splitting a delimiter-free string gives that one component.
proof fn lemma_split_single(c: Seq<char>)
    requires
        char_free(c, '.'),
    ensures
        split_dots(c) == seq![c],
    decreases c.len(),
{
    if c.len() == 0 {
        assert(split_dots(c) =~~= seq![c]);
    } else {
        assert(c[0] != '.');
        let t = c.drop_first();
        lemma_split_single(t);
        assert(seq![c[0]] + t =~= c);
        assert(split_dots(c) =~~= seq![c]);
    }
}

/// Splitting `a ++ "." ++ b`, where `a` is delimiter-free, yields `a`
/// followed by the split of `b`.
proof fn lemma_split_step(a: Seq<char>, b: Seq<char>)
    requires
        char_free(a, '.'),
    ensures
        split_dots(a + seq!['.'] + b) == seq![a] + split_dots(b),
    decreases a.len(),
{
    let s = a + seq!['.'] + b;
    if a.len() == 0 {
        assert(s[0] == '.');
        assert(s.drop_first() =~= b);
        assert(split_dots(s) =~~= seq![a] + split_dots(b));
    } else {
        assert(s[0] == a[0]);
        assert(s[0] != '.');
        let a2 = a.drop_first();
        assert(s.drop_first() =~= a2 + seq!['.'] + b);
        lemma_split_step(a2, b);
        let rest = split_dots(a2 + seq!['.'] + b);
        assert(rest == seq![a2] + split_dots(b));
        assert(rest[0] == a2);
        assert(seq![s[0]] + rest[0] =~= a);
        assert(rest.drop_first() =~= split_dots(b));
        assert(split_dots(s) =~~= seq![a] + split_dots(b));
    }
}

/// Joining the split of `s` with the delimiter reproduces `s`.
proof fn lemma_join_split(s: Seq<char>)
    ensures
        join_sep(split_dots(s), '.') == s,
    decreases s.len(),
{
    if s.len() == 0 {
        assert(join_sep(split_dots(s), '.') =~= s);
    } else if s[0] == '.' {
        let t = s.drop_first();
        lemma_join_split(t);
        lemma_split_dots_len(t);
        let cs = seq![Seq::<char>::empty()] + split_dots(t);
        assert(cs.len() >= 2);
        assert(cs.drop_first() =~= split_dots(t));
        assert(join_sep(cs, '.') =~= seq!['.'] + join_sep(split_dots(t), '.'));
        assert(seq!['.'] + t =~= s);
    } else {
        let t = s.drop_first();
        lemma_join_split(t);
        lemma_split_dots_len(t);
        let rest = split_dots(t);
        let cs = seq![seq![s[0]] + rest[0]] + rest.drop_first();
        if rest.len() == 1 {
            assert(cs.len() == 1);
            assert(join_sep(rest, '.') == rest[0]);
            assert(join_sep(cs, '.') == seq![s[0]] + rest[0]);
            assert(seq![s[0]] + t =~= s);
        } else {
            assert(cs.len() >= 2);
            assert(cs[0] == seq![s[0]] + rest[0]);
            assert(cs.drop_first() =~= rest.drop_first());
            assert(join_sep(cs, '.') == cs[0] + seq!['.'] + join_sep(rest.drop_first(), '.'));
            assert(join_sep(rest, '.') == rest[0] + seq!['.'] + join_sep(rest.drop_first(), '.'));
            assert(join_sep(cs, '.') =~= seq![s[0]] + join_sep(rest, '.'));
            assert(seq![s[0]] + t =~= s);
        }
    }
}

/// Splitting the join of delimiter-free components recovers the
/// components.
proof fn lemma_split_join(cs: Seq<Seq<char>>)
    requires
        cs.len() >= 1,
        forall|k: int| 0 <= k < cs.len() ==> char_free(#[trigger] cs[k], '.'),
    ensures
        split_dots(join_sep(cs, '.')) == cs,
    decreases cs.len(),
{
    if cs.len() == 1 {
        lemma_split_single(cs[0]);
        assert(split_dots(join_sep(cs, '.')) =~~= cs);
    } else {
        let rest = cs.drop_first();
        lemma_split_join(rest);
        lemma_split_step(cs[0], join_sep(rest, '.'));
        assert(split_dots(cs[0] + seq!['.'] + join_sep(rest, '.')) == seq![cs[0]] + rest);
        assert(seq![cs[0]] + rest =~~= cs);
    }
}

/// Appending one more component to a non-empty join appends a separator
/// and the component.
proof fn lemma_join_push(cs: Seq<Seq<char>>, sep: char, c: Seq<char>)
    requires
        cs.len() >= 1,
    ensures
        join_sep(cs.push(c), sep) == join_sep(cs, sep) + seq![sep] + c,
    decreases cs.len(),
{
    let p = cs.push(c);
    if cs.len() == 1 {
        assert(p.len() == 2);
        assert(p[0] == cs[0]);
        assert(p.drop_first() =~= seq![c]);
        assert(join_sep(seq![c], sep) == c);
        assert(join_sep(p, sep) =~= join_sep(cs, sep) + seq![sep] + c);
    } else {
        lemma_join_push(cs.drop_first(), sep, c);
        assert(p.drop_first() =~= cs.drop_first().push(c));
        assert(p[0] == cs[0]);
        assert(join_sep(p, sep) == cs[0] + seq![sep] + join_sep(cs.drop_first().push(c), sep));
        assert(join_sep(cs, sep) == cs[0] + seq![sep] + join_sep(cs.drop_first(), sep));
        assert(join_sep(p, sep) =~= join_sep(cs, sep) + seq![sep] + c);
    }
}

/// The default extension list tried for each path prefix, in order.
pub open spec fn default_extensions() -> Seq<Seq<char>> {
    seq!["yaml"@, "yml"@]
}

/// The file path of one candidate: the first `i` components joined with
/// the path separator, then a dot and the extension.
pub open spec fn candidate_path(cs: Seq<Seq<char>>, i: int, ext: Seq<char>) -> Seq<char> {
    join_sep(cs.subrange(0, i), '/') + seq!['.'] + ext
}

/// How many candidates a keypath with components `cs` and extension list
/// `exts` yields: one per (prefix length, extension) pair.
pub open spec fn num_candidates(cs: Seq<Seq<char>>, exts: Seq<Seq<char>>) -> int {
    cs.len() as int * exts.len() as int
}

/// The path-prefix length of candidate `j`: all components first, then one
/// fewer for each full round of extensions.
pub open spec fn prefix_len_at(cs: Seq<Seq<char>>, exts: Seq<Seq<char>>, j: int) -> int {
    cs.len() - j / (exts.len() as int)
}

/// Candidate `j`, in forward (longest-prefix-first) order: a file path and
/// the residual key components not consumed by the path.
pub open spec fn candidate_at(cs: Seq<Seq<char>>, exts: Seq<Seq<char>>, j: int) -> (
    Seq<char>,
    Seq<Seq<char>>,
) {
    let i = prefix_len_at(cs, exts, j);
    (candidate_path(cs, i, exts[j % (exts.len() as int)]), cs.subrange(i, cs.len() as int))
}

/// All candidates of `cs` under `exts`, in forward order.
pub open spec fn candidates_seq(cs: Seq<Seq<char>>, exts: Seq<Seq<char>>) -> Seq<
    (Seq<char>, Seq<Seq<char>>),
> {
    Seq::new(num_candidates(cs, exts) as nat, |j: int| candidate_at(cs, exts, j))
}

/// All candidates of `cs` under `exts`, in backward
/// (shortest-prefix-first) order.
pub open spec fn candidates_rev_seq(cs: Seq<Seq<char>>, exts: Seq<Seq<char>>) -> Seq<
    (Seq<char>, Seq<Seq<char>>),
> {
    Seq::new(
        num_candidates(cs, exts) as nat,
        |k: int| candidate_at(cs, exts, num_candidates(cs, exts) - 1 - k),
    )
}

/// True when `c` is one of the whitespace characters of `is_space`.
fn is_space_char(c: char) -> (r: bool)
    ensures
        r == is_space(c),
{
    c == ' ' || c == '\t' || c == '\n' || c == '\r'
}

/// Check one raw keypath component and return its trimmed form when it is
/// acceptable: non-empty after trimming, no delimiter, no path separator.
pub fn validate_and_trim(component: &str) -> (r: Result<&str, KeyPathParseError>)
    ensures
        r is Ok <==> comp_ok(component@),
        r matches Ok(t) ==> t@ == trim_spec(component@) && comp_wf(t@),
        r matches Err(e) ==> e == KeyPathParseError::InvalidKeyPath,
{
    let ghost s = component@;
    let len = component.unicode_len();
    let mut j: usize = 0;
    while j < len
        invariant
            j <= len,
            len == s.len(),
            s == component@,
            forall|k: int| 0 <= k < j ==> s[k] != '.' && s[k] != '/',
        decreases len - j,
    {
        let c = component.get_char(j);
        if c == '.' || c == '/' {
            return Err(KeyPathParseError::InvalidKeyPath);
        }
        j += 1;
    }
    assert(char_free(s, '.'));
    assert(char_free(s, '/'));

    let mut a: usize = 0;
    while a < len && is_space_char(component.get_char(a))
        invariant
            a <= len,
            len == s.len(),
            s == component@,
            forall|k: int| 0 <= k < a ==> is_space(s[k]),
        decreases len - a,
    {
        a += 1;
    }
    let mut b: usize = len;
    while b > a && is_space_char(component.get_char(b - 1))
        invariant
            a <= b <= len,
            len == s.len(),
            s == component@,
            forall|k: int| b <= k < len ==> is_space(s[k]),
        decreases b,
    {
        b -= 1;
    }
    proof {
        lemma_trim_front_skip(s, a as int);
        let t = s.subrange(a as int, s.len() as int);
        assert(forall|k: int| b - a <= k < t.len() ==> is_space(#[trigger] t[k]));
        if b > a {
            assert(!is_space(t[b - a - 1]));
        }
        lemma_trim_back_skip(t, b - a);
        assert(t.subrange(0, b - a) =~= s.subrange(a as int, b as int));
        assert(trim_spec(s) == s.subrange(a as int, b as int));
    }
    if a == b {
        return Err(KeyPathParseError::InvalidKeyPath);
    }
    let trimmed = component.substring_char(a, b);
    proof {
        assert(trimmed@ =~= trim_spec(s));
        assert(!is_space(trimmed@[0]));
        assert(!is_space(trimmed@[trimmed@.len() - 1]));
        assert(char_free(trimmed@, '.'));
        assert(char_free(trimmed@, '/'));
    }
    Ok(trimmed)
}

/// A parsed, validated keypath: an ordered, non-empty sequence of trimmed
/// components.
#[derive(Debug)]
pub struct KeyPath {
    components: Vec<String>,
}

impl View for KeyPath {
    type V = Seq<Seq<char>>;

    closed spec fn view(&self) -> Seq<Seq<char>> {
        views(self.components@)
    }
}

impl KeyPath {
    /// Every component of a parsed keypath is canonical and there is at
    /// least one.
    pub open spec fn wf(&self) -> bool {
        &&& self@.len() >= 1
        &&& forall|k: int| 0 <= k < self@.len() ==> comp_wf(#[trigger] self@[k])
    }

    /// Parse and validate a raw keypath string.
    ///
    /// The string is split on the delimiter; each component is trimmed and
    /// must be non-empty and free of path separators. Validation is
    /// all-or-nothing: either every component is acceptable, or the whole
    /// parse fails.
    pub fn try_from(value: &str) -> (r: Result<KeyPath, KeyPathParseError>)
        ensures
            r is Ok <==> keypath_valid(value@),
            r matches Ok(kp) ==> kp@ == keypath_components(value@) && kp.wf(),
            r matches Err(e) ==> e == KeyPathParseError::InvalidKeyPath,
    {
        let ghost s = value@;
        let len = value.unicode_len();
        let mut components: Vec<String> = Vec::new();
        let ghost mut raws: Seq<Seq<char>> = Seq::empty();
        let mut start: usize = 0;
        let mut i: usize = 0;
        proof {
            assert(s.subrange(0, len as int) =~= s);
            assert(split_dots(s) =~~= raws + split_dots(s.subrange(0, len as int)));
        }
        while i < len
            invariant
                start <= i <= len,
                len == s.len(),
                s == value@,
                char_free(s.subrange(start as int, i as int), '.'),
                raws.len() == components@.len(),
                forall|k: int| 0 <= k < raws.len() ==> comp_ok(#[trigger] raws[k]),
                forall|k: int|
                    0 <= k < raws.len() ==> comp_wf(#[trigger] views(components@)[k])
                        && views(components@)[k] == trim_spec(raws[k]),
                split_dots(s) == raws + split_dots(s.subrange(start as int, len as int)),
            decreases len - i,
        {
            let c = value.get_char(i);
            if c == '.' {
                let ghost raw = s.subrange(start as int, i as int);
                proof {
                    assert(s.subrange(start as int, len as int) =~= raw + seq!['.'] + s.subrange(
                        i + 1,
                        len as int,
                    ));
                    lemma_split_step(raw, s.subrange(i + 1, len as int));
                    lemma_split_dots_len(s.subrange(i + 1, len as int));
                }
                let comp = value.substring_char(start, i);
                match validate_and_trim(comp) {
                    Err(e) => {
                        proof {
                            assert(split_dots(s)[raws.len() as int] == raw);
                            assert(!comp_ok(raw));
                        }
                        return Err(e);
                    },
                    Ok(t) => {
                        let ghost oldc = components@;
                        let ghost oldraws = raws;
                        components.push(String::from_str(t));
                        proof {
                            raws = raws.push(raw);
                            assert(split_dots(s) =~~= raws + split_dots(
                                s.subrange(i + 1, len as int),
                            ));
                            assert forall|k: int| 0 <= k < raws.len() implies comp_wf(
                                #[trigger] views(components@)[k],
                            ) && views(components@)[k] == trim_spec(raws[k]) by {
                                assert(views(components@)[k] == components@[k]@);
                                if k < oldraws.len() {
                                    assert(components@[k] == oldc[k]);
                                    assert(views(oldc)[k] == oldc[k]@);
                                } else {
                                    assert(components@[k]@ == t@);
                                }
                            }
                        }
                        start = i + 1;
                    },
                }
            } else {
                proof {
                    assert(s.subrange(start as int, i + 1) =~= s.subrange(start as int, i as int)
                        + seq![s[i as int]]);
                }
            }
            i += 1;
        }
        let ghost raw = s.subrange(start as int, len as int);
        proof {
            lemma_split_single(raw);
        }
        let comp = value.substring_char(start, len);
        match validate_and_trim(comp) {
            Err(e) => {
                proof {
                    assert(split_dots(s)[raws.len() as int] == raw);
                    assert(!comp_ok(raw));
                }
                Err(e)
            },
            Ok(t) => {
                let ghost oldc = components@;
                let ghost oldraws = raws;
                components.push(String::from_str(t));
                proof {
                    raws = raws.push(raw);
                    assert(split_dots(s) =~~= raws);
                    assert(keypath_valid(s));
                    assert forall|k: int| 0 <= k < raws.len() implies comp_wf(
                        #[trigger] views(components@)[k],
                    ) && views(components@)[k] == trim_spec(raws[k]) by {
                        assert(views(components@)[k] == components@[k]@);
                        if k < oldraws.len() {
                            assert(components@[k] == oldc[k]);
                            assert(views(oldc)[k] == oldc[k]@);
                        } else {
                            assert(components@[k]@ == t@);
                        }
                    }
                    assert(views(components@) =~~= keypath_components(s));
                }
                Ok(KeyPath { components })
            },
        }
    }

    /// The validated, trimmed components, in order.
    pub fn components(&self) -> (r: &Vec<String>)
        ensures
            views(r@) == self@,
    {
        &self.components
    }

    /// All candidate interpretations of this keypath under the given
    /// extension list, longest path prefix first, as a lazy double-ended
    /// iterator.
    pub fn candidates(&self, extensions: &Vec<String>) -> (r: CandidateIter)
        requires
            self@.len() >= 1,
        ensures
            r.wf(),
            views(r.components@) == self@,
            views(r.extensions@) == views(extensions@),
            r.front == 0,
            r.back as int == r.total(),
    {
        let n = self.components.len();
        let e = extensions.len();
        proof {
            lemma_mul_upper_bound(n as int, u64::MAX as int, e as int, u64::MAX as int);
        }
        let back = (n as u128) * (e as u128);
        CandidateIter {
            components: clone_strings(&self.components),
            extensions: clone_strings(extensions),
            front: 0,
            back,
        }
    }

    /// All candidate interpretations of this keypath under the default
    /// extension list.
    pub fn iter(&self) -> (r: CandidateIter)
        requires
            self@.len() >= 1,
        ensures
            r.wf(),
            views(r.components@) == self@,
            views(r.extensions@) == default_extensions(),
            r.front == 0,
            r.back as int == r.total(),
    {
        let mut exts: Vec<String> = Vec::new();
        exts.push(String::from_str("yaml"));
        exts.push(String::from_str("yml"));
        proof {
            assert(views(exts@) =~= default_extensions());
        }
        self.candidates(&exts)
    }

    /// The canonical string form: the components joined with the
    /// delimiter.
    pub fn to_string(&self) -> (r: String)
        ensures
            r@ == join_sep(self@, '.'),
    {
        let mut out = String::new();
        let mut k: usize = 0;
        while k < self.components.len()
            invariant
                k <= self.components@.len(),
                out@ == join_sep(self@.subrange(0, k as int), '.'),
            decreases self.components@.len() - k,
        {
            proof {
                reveal_strlit(".");
            }
            if k > 0 {
                out.append(".");
                proof {
                    lemma_join_push(self@.subrange(0, k as int), '.', self@[k as int]);
                }
            }
            out.append(self.components[k].as_str());
            proof {
                assert(self@.subrange(0, k + 1) =~= self@.subrange(0, k as int).push(
                    self@[k as int],
                ));
                if k == 0 {
                    assert(join_sep(self@.subrange(0, 1), '.') == self@.subrange(0, 1)[0]);
                }
            }
            k += 1;
        }
        proof {
            assert(self@.subrange(0, self@.len() as int) =~= self@);
        }
        out
    }
}

/// An element-wise copy of a vector of strings.
fn clone_strings(v: &Vec<String>) -> (r: Vec<String>)
    ensures
        r@ == v@,
{
    let mut r: Vec<String> = Vec::new();
    let mut i: usize = 0;
    while i < v.len()
        invariant
            i <= v@.len(),
            r@ == v@.subrange(0, i as int),
        decreases v@.len() - i,
    {
        r.push(v[i].clone());
        proof {
            assert(v@.subrange(0, i + 1) =~= v@.subrange(0, i as int).push(v@[i as int]));
        }
        i += 1;
    }
    proof {
        assert(v@.subrange(0, v@.len() as int) =~= v@);
    }
    r
}

/// A lazy, double-ended iterator over the candidate interpretations of a
/// keypath: `front` and `back` delimit the candidates not yet produced, as
/// positions into the forward candidate sequence.
pub struct CandidateIter {
    /// The keypath's components.
    pub components: Vec<String>,
    /// The extension list, in the order the extensions are tried.
    pub extensions: Vec<String>,
    /// Position of the next forward candidate.
    pub front: u128,
    /// One past the position of the next backward candidate.
    pub back: u128,
}

impl CandidateIter {
    /// How many candidates the whole sequence has.
    pub open spec fn total(self) -> int {
        num_candidates(views(self.components@), views(self.extensions@))
    }

    /// The full forward candidate sequence this iterator walks.
    pub open spec fn model(self) -> Seq<(Seq<char>, Seq<Seq<char>>)> {
        candidates_seq(views(self.components@), views(self.extensions@))
    }

    pub open spec fn wf(self) -> bool {
        &&& self.components@.len() >= 1
        &&& self.front <= self.back
        &&& self.back as int <= self.total()
    }

    /// Build candidate `j`: the path-prefix joined with path separators
    /// and the chosen extension appended, beside the residual components.
    fn candidate(&self, j: u128) -> (r: (String, Vec<String>))
        requires
            self.components@.len() >= 1,
            (j as int) < self.total(),
        ensures
            r.0@ == candidate_at(views(self.components@), views(self.extensions@), j as int).0,
            views(r.1@) == candidate_at(views(self.components@), views(self.extensions@), j as int).1,
    {
        let ghost cs = views(self.components@);
        let ghost exts = views(self.extensions@);
        let n = self.components.len();
        let e = self.extensions.len();
        proof {
            if e == 0 {
                lemma_mul_basics(n as int);
                assert(false);
            }
            lemma_mul_is_commutative(n as int, e as int);
            lemma_multiply_divide_lt(j as int, e as int, n as int);
            lemma_div_pos_is_pos(j as int, e as int);
            lemma_mod_bound(j as int, e as int);
        }
        let q = j / (e as u128);
        let rk = (j % (e as u128)) as usize;
        let i = n - (q as usize);
        proof {
            assert(i as int == prefix_len_at(cs, exts, j as int));
            assert(rk as int == j as int % exts.len() as int);
        }
        let mut path = String::new();
        let mut idx: usize = 0;
        while idx < i
            invariant
                idx <= i <= self.components@.len(),
                cs == views(self.components@),
                path@ == join_sep(cs.subrange(0, idx as int), '/'),
            decreases i - idx,
        {
            if idx > 0 {
                path.append("/");
                proof {
                    lemma_join_push(cs.subrange(0, idx as int), '/', cs[idx as int]);
                }
            }
            path.append(self.components[idx].as_str());
            proof {
                reveal_strlit("/");
                assert(cs.subrange(0, idx + 1) =~= cs.subrange(0, idx as int).push(cs[idx as int]));
                if idx == 0 {
                    assert(join_sep(cs.subrange(0, 1), '/') == cs.subrange(0, 1)[0]);
                    assert(path@ =~= cs[0]);
                } else {
                    assert(path@ =~= join_sep(cs.subrange(0, idx as int), '/') + seq!['/'] + cs[
                        idx as int
                    ]);
                }
            }
            idx += 1;
        }
        path.append(".");
        path.append(self.extensions[rk].as_str());
        proof {
            reveal_strlit(".");
            assert(path@ =~= candidate_path(cs, i as int, exts[rk as int]));
        }
        let mut keys: Vec<String> = Vec::new();
        let mut k2: usize = i;
        while k2 < n
            invariant
                i <= k2 <= n,
                n == self.components@.len(),
                keys@ == self.components@.subrange(i as int, k2 as int),
            decreases n - k2,
        {
            keys.push(self.components[k2].clone());
            proof {
                assert(self.components@.subrange(i as int, k2 + 1) =~= self.components@.subrange(
                    i as int,
                    k2 as int,
                ).push(self.components@[k2 as int]));
            }
            k2 += 1;
        }
        proof {
            let want = candidate_at(cs, exts, j as int).1;
            assert forall|t: int| 0 <= t < keys@.len() implies views(keys@)[t] == want[t] by {
                assert(views(keys@)[t] == keys@[t]@);
                assert(keys@[t] == self.components@[i + t]);
            }
            assert(views(keys@) =~= want);
        }
        (path, keys)
    }

    /// The next candidate in forward order: the longest path prefix not
    /// yet produced.
    pub fn next(&mut self) -> (r: Option<(String, Vec<String>)>)
        requires
            old(self).wf(),
        ensures
            final(self).wf(),
            final(self).components == old(self).components,
            final(self).extensions == old(self).extensions,
            final(self).back == old(self).back,
            old(self).front == old(self).back ==> r is None && final(self).front == old(
                self,
            ).front,
            old(self).front < old(self).back ==> final(self).front as int == old(self).front as int
                + 1 && (r matches Some(c) && c.0@ == old(self).model()[old(self).front as int].0
                && views(c.1@) == old(self).model()[old(self).front as int].1),
    {
        if self.front == self.back {
            return None;
        }
        let r = self.candidate(self.front);
        self.front = self.front + 1;
        Some(r)
    }

    /// The next candidate in backward order: the shortest path prefix not
    /// yet produced.
    pub fn next_back(&mut self) -> (r: Option<(String, Vec<String>)>)
        requires
            old(self).wf(),
        ensures
            final(self).wf(),
            final(self).components == old(self).components,
            final(self).extensions == old(self).extensions,
            final(self).front == old(self).front,
            old(self).front == old(self).back ==> r is None && final(self).back == old(self).back,
            old(self).front < old(self).back ==> final(self).back as int == old(self).back as int
                - 1 && (r matches Some(c) && c.0@ == old(self).model()[old(self).back as int - 1].0
                && views(c.1@) == old(self).model()[old(self).back as int - 1].1),
    {
        if self.front == self.back {
            return None;
        }
        let j = self.back - 1;
        let r = self.candidate(j);
        self.back = j;
        Some(r)
    }
}

/// Trimming never lengthens a sequence.
proof fn lemma_trim_front_len(s: Seq<char>)
    ensures
        trim_front(s).len() <= s.len(),
    decreases s.len(),
{
    if s.len() > 0 && is_space(s[0]) {
        lemma_trim_front_len(s.drop_first());
    }
}

/// Trimming never lengthens a sequence.
proof fn lemma_trim_back_len(s: Seq<char>)
    ensures
        trim_back(s).len() <= s.len(),
    decreases s.len(),
{
    if s.len() > 0 && is_space(s[s.len() - 1]) {
        lemma_trim_back_len(s.drop_last());
    }
}

/// Trimming never lengthens a sequence.
proof fn lemma_trim_len(s: Seq<char>)
    ensures
        trim_spec(s).len() <= s.len(),
{
    lemma_trim_front_len(s);
    lemma_trim_back_len(trim_front(s));
}

/// The join of non-empty, separator-free components starts and ends with
/// component characters and never holds two adjacent separators.
proof fn lemma_join_sep_shape(cs: Seq<Seq<char>>, sep: char)
    requires
        cs.len() >= 1,
        forall|k: int| 0 <= k < cs.len() ==> (#[trigger] cs[k]).len() > 0 && char_free(cs[k], sep),
    ensures
        join_sep(cs, sep).len() > 0,
        join_sep(cs, sep)[0] == cs[0][0],
        join_sep(cs, sep)[join_sep(cs, sep).len() - 1] == cs[cs.len() - 1][cs[cs.len() - 1].len()
            - 1],
        forall|p: int|
            0 <= p < join_sep(cs, sep).len() - 1 ==> !(#[trigger] join_sep(cs, sep)[p] == sep
                && join_sep(cs, sep)[p + 1] == sep),
    decreases cs.len(),
{
    let j = join_sep(cs, sep);
    if cs.len() == 1 {
        assert(j == cs[0]);
    } else {
        let rest = cs.drop_first();
        assert(forall|k: int|
            0 <= k < rest.len() ==> (#[trigger] rest[k]).len() > 0 && char_free(rest[k], sep));
        lemma_join_sep_shape(rest, sep);
        let jr = join_sep(rest, sep);
        let c0 = cs[0];
        assert(j == c0 + seq![sep] + jr);
        assert(j.len() == c0.len() + 1 + jr.len());
        assert(j[0] == c0[0]);
        assert(rest[rest.len() - 1] == cs[cs.len() - 1]);
        assert(j[j.len() - 1] == jr[jr.len() - 1]);
        assert forall|p: int| 0 <= p < j.len() - 1 implies !(#[trigger] j[p] == sep && j[p + 1]
            == sep) by {
            if p + 1 <= c0.len() {
                assert(j[p] == c0[p]);
            } else if p == c0.len() {
                assert(j[p + 1] == jr[0]);
                assert(jr[0] == rest[0][0]);
            } else {
                assert(j[p] == jr[p - c0.len() - 1]);
                assert(j[p + 1] == jr[p - c0.len()]);
            }
        }
    }
}

/// LAW: parsing is idempotent on its own canonical output. The canonical
/// string form of any well-formed component sequence is a valid keypath,
/// and parsing it gives back exactly that sequence.
pub proof fn lemma_parse_idempotent(cs: Seq<Seq<char>>)
    requires
        cs.len() >= 1,
        forall|k: int| 0 <= k < cs.len() ==> comp_wf(#[trigger] cs[k]),
    ensures
        keypath_valid(join_sep(cs, '.')),
        keypath_components(join_sep(cs, '.')) == cs,
{
    let s = join_sep(cs, '.');
    lemma_split_join(cs);
    assert forall|k: int| 0 <= k < split_dots(s).len() implies comp_ok(
        #[trigger] split_dots(s)[k],
    ) by {
        lemma_trim_trimmed(cs[k]);
    }
    assert forall|k: int| 0 <= k < cs.len() implies keypath_components(s)[k] == cs[k] by {
        lemma_trim_trimmed(cs[k]);
    }
    assert(keypath_components(s) =~~= cs);
}

/// LAW: parsing accepts components with surrounding whitespace and trims
/// it. Any raw string whose components all trim to something non-empty
/// and are free of the delimiter and the path separator is accepted, and
/// the parsed components are exactly the trimmed raw components.
pub proof fn lemma_parse_accepts_padding(rs: Seq<Seq<char>>)
    requires
        rs.len() >= 1,
        forall|k: int| 0 <= k < rs.len() ==> comp_ok(#[trigger] rs[k]),
    ensures
        keypath_valid(join_sep(rs, '.')),
        keypath_components(join_sep(rs, '.')) == rs.map_values(|c: Seq<char>| trim_spec(c)),
{
    let s = join_sep(rs, '.');
    lemma_split_join(rs);
    assert(keypath_components(s) =~~= rs.map_values(|c: Seq<char>| trim_spec(c)));
}

/// LAW: parsing rejects a leading delimiter, a trailing delimiter, a
/// doubled delimiter, a component that trims to nothing, and a component
/// containing a path separator.
pub proof fn lemma_parse_rejections(s: Seq<char>)
    ensures
        s.len() > 0 && s[0] == '.' ==> !keypath_valid(s),
        s.len() > 0 && s[s.len() - 1] == '.' ==> !keypath_valid(s),
        (exists|p: int| 0 <= p && p + 1 < s.len() && #[trigger] s[p] == '.' && s[p + 1] == '.')
            ==> !keypath_valid(s),
        (exists|k: int|
            0 <= k < split_dots(s).len() && trim_spec(#[trigger] split_dots(s)[k]).len() == 0)
            ==> !keypath_valid(s),
        (exists|k: int, q: int|
            0 <= k < split_dots(s).len() && 0 <= q < split_dots(s)[k].len()
                && #[trigger] split_dots(s)[k][q] == '/') ==> !keypath_valid(s),
{
    if keypath_valid(s) {
        let cs = split_dots(s);
        lemma_split_dots_len(s);
        lemma_split_dots_free(s);
        lemma_join_split(s);
        assert forall|k: int| 0 <= k < cs.len() implies (#[trigger] cs[k]).len() > 0 && char_free(
            cs[k],
            '.',
        ) by {
            lemma_trim_len(cs[k]);
        }
        lemma_join_sep_shape(cs, '.');
        assert(s[0] == cs[0][0]);
        assert(s[0] != '.');
        assert(s[s.len() - 1] != '.');
    }
}

/// LAW: a keypath of `N` components with an extension list of size `E`
/// yields exactly `N * E` candidates, and for each one the path-prefix
/// length and the residual-key count sum to `N`.
pub proof fn lemma_candidate_count_and_split(cs: Seq<Seq<char>>, exts: Seq<Seq<char>>, j: int)
    requires
        cs.len() >= 1,
        exts.len() >= 1,
        0 <= j < num_candidates(cs, exts),
    ensures
        candidates_seq(cs, exts).len() == cs.len() * exts.len(),
        1 <= prefix_len_at(cs, exts, j) <= cs.len(),
        candidate_at(cs, exts, j).1 == cs.subrange(prefix_len_at(cs, exts, j), cs.len() as int),
        prefix_len_at(cs, exts, j) + candidate_at(cs, exts, j).1.len() == cs.len(),
{
    lemma_mul_is_commutative(cs.len() as int, exts.len() as int);
    lemma_multiply_divide_lt(j, exts.len() as int, cs.len() as int);
    lemma_div_pos_is_pos(j, exts.len() as int);
}

/// LAW: the forward candidate order is longest path prefix first: the
/// prefix length never grows from one candidate to a later one.
pub proof fn lemma_prefix_len_monotone(cs: Seq<Seq<char>>, exts: Seq<Seq<char>>, j1: int, j2: int)
    requires
        exts.len() >= 1,
        0 <= j1 <= j2,
    ensures
        prefix_len_at(cs, exts, j1) >= prefix_len_at(cs, exts, j2),
{
    lemma_div_is_ordered(j1, j2, exts.len() as int);
}

/// LAW: materializing the candidates backward yields exactly the reverse
/// of the forward candidate sequence.
pub proof fn lemma_candidates_reverse(cs: Seq<Seq<char>>, exts: Seq<Seq<char>>)
    ensures
        candidates_rev_seq(cs, exts) == candidates_seq(cs, exts).reverse(),
{
    assert(candidates_rev_seq(cs, exts) =~= candidates_seq(cs, exts).reverse());
}

} // verus!
