//! Paths as text: normalisation, and the division of a normalised path into
//! its components.
//!
//! A path is a `String` whose components are separated by `/`. The tree
//! works on the sequence of components; two paths are the same path when
//! their components agree.

use vstd::prelude::*;
use vstd::string::*;

verus! {

/// The separator between the components of a path.
pub open spec fn is_separator(c: char) -> bool {
    c == '/'
}

/// The component that stands for the root directory of a rooted path.
pub open spec fn root_component() -> Seq<char> {
    seq!['/']
}

/// The component that stands for the current directory.
pub open spec fn current_dir_component() -> Seq<char> {
    seq!['.']
}

/// The component that stands for the parent directory.
pub open spec fn parent_dir_component() -> Seq<char> {
    seq!['.', '.']
}

/// Index of the last separator in `s`, or -1 when `s` holds none.
pub open spec fn last_separator(s: Seq<char>) -> int
    decreases s.len(),
{
    if s.len() == 0 {
        -1
    } else if is_separator(s.last()) {
        s.len() - 1
    } else {
        last_separator(s.drop_last())
    }
}

/// The non-empty runs of characters between the separators of `s`, in order.
pub open spec fn segments(s: Seq<char>) -> Seq<Seq<char>>
    decreases s.len(),
{
    let i = last_separator(s);
    let tail = s.skip(i + 1);
    let before = if 0 <= i < s.len() {
        segments(s.take(i))
    } else {
        Seq::empty()
    };
    if tail.len() > 0 {
        before.push(tail)
    } else {
        before
    }
}

/// The components of a path: the root component first when the path begins
/// with a separator, then its segments.
pub open spec fn components(s: Seq<char>) -> Seq<Seq<char>> {
    if s.len() > 0 && is_separator(s[0]) {
        seq![root_component()] + segments(s)
    } else {
        segments(s)
    }
}

/// A name: a non-empty run of characters without a separator.
pub open spec fn is_name(c: Seq<char>) -> bool {
    c.len() > 0 && forall|i: int| 0 <= i < c.len() ==> !is_separator(#[trigger] c[i])
}

/// A component sequence as `components` yields it: names, but for an
/// optional root component in front.
pub open spec fn valid_components(cs: Seq<Seq<char>>) -> bool {
    forall|k: int|
        0 <= k < cs.len() ==> is_name(#[trigger] cs[k]) || (k == 0 && cs[k] == root_component())
}

/// A component that can name a file: a name that is neither the current nor
/// the parent directory.
pub open spec fn is_file_name(c: Seq<char>) -> bool {
    is_name(c) && c != current_dir_component() && c != parent_dir_component()
}

/// Whether a component sequence ends in a file name.
pub open spec fn has_file_name(cs: Seq<Seq<char>>) -> bool {
    cs.len() > 0 && is_file_name(cs.last())
}

/// The text of a path made of `cs`: each component is joined to what precedes
/// it by one separator, unless nothing precedes it or what precedes it ends
/// in a separator already.
pub open spec fn join(cs: Seq<Seq<char>>) -> Seq<char>
    decreases cs.len(),
{
    if cs.len() == 0 {
        Seq::empty()
    } else {
        let before = join(cs.drop_last());
        if before.len() == 0 || is_separator(before.last()) {
            before + cs.last()
        } else {
            before.push('/') + cs.last()
        }
    }
}

/// The views of a sequence of strings.
pub open spec fn strings_view(v: Seq<String>) -> Seq<Seq<char>> {
    Seq::new(v.len(), |i: int| v[i]@)
}

/// The result of the lexical normalisation that `path_clean::clean` performs
/// on `path`.
pub uninterp spec fn cleaned_path(path: Seq<char>) -> Seq<char>;

/// The normalised form of each of `paths`.
pub open spec fn cleaned_all(paths: Seq<Seq<char>>) -> Seq<Seq<char>> {
    Seq::new(paths.len(), |i: int| cleaned_path(paths[i]))
}

/// Whether each of `paths` ends in a file name.
pub open spec fn all_have_file_names(paths: Seq<Seq<char>>) -> bool {
    forall|i: int| 0 <= i < paths.len() ==> has_file_name(components(#[trigger] paths[i]))
}

/// Calls `path_clean::clean`, which collapses repeated separators, drops `.`
/// elements and resolves `..` elements against the element before them,
/// without touching the file system. The result depends on the text of
/// `path` alone; the contract gives it the name `cleaned_path` and claims
/// nothing else of it.
#[verifier::external_body]
pub(crate) fn clean_path(path: &str) -> (cleaned: String)
    ensures
        cleaned@ == cleaned_path(path@),
{
    path_clean::clean(path).to_string_lossy().into_owned()
}

/// The last separator of a text lies within the text, if there is one, and
/// no separator stands behind it.
pub proof fn lemma_last_separator_bounds(s: Seq<char>)
    ensures
        -1 <= last_separator(s) < s.len(),
        last_separator(s) >= 0 ==> is_separator(s[last_separator(s)]),
        forall|j: int| last_separator(s) < j < s.len() ==> !is_separator(#[trigger] s[j]),
    decreases s.len(),
{
    if s.len() > 0 && !is_separator(s.last()) {
        let t = s.drop_last();
        lemma_last_separator_bounds(t);
        assert forall|j: int| last_separator(s) < j < s.len() implies !is_separator(
            #[trigger] s[j],
        ) by {
            if j < t.len() {
                assert(t[j] == s[j]);
            }
        }
    }
}

/// The last separator of `s` is at `i` when a separator stands there and none
/// stands behind it.
pub proof fn lemma_last_separator_is(s: Seq<char>, i: int)
    requires
        -1 <= i < s.len(),
        i >= 0 ==> is_separator(s[i]),
        forall|j: int| i < j < s.len() ==> !is_separator(#[trigger] s[j]),
    ensures
        last_separator(s) == i,
    decreases s.len(),
{
    if s.len() > 0 && !is_separator(s.last()) {
        let t = s.drop_last();
        assert forall|j: int| i < j < t.len() implies !is_separator(#[trigger] t[j]) by {
            assert(t[j] == s[j]);
        }
        lemma_last_separator_is(t, i);
    }
}

/// Every segment is a name.
pub proof fn lemma_segments_are_names(s: Seq<char>)
    ensures
        forall|k: int| 0 <= k < segments(s).len() ==> is_name(#[trigger] segments(s)[k]),
    decreases s.len(),
{
    lemma_last_separator_bounds(s);
    let i = last_separator(s);
    let tail = s.skip(i + 1);
    if 0 <= i < s.len() {
        lemma_segments_are_names(s.take(i));
    }
    assert forall|j: int| 0 <= j < tail.len() implies !is_separator(#[trigger] tail[j]) by {
        assert(tail[j] == s[i + 1 + j]);
    }
    let before = if 0 <= i < s.len() {
        segments(s.take(i))
    } else {
        Seq::empty()
    };
    assert forall|k: int| 0 <= k < segments(s).len() implies is_name(#[trigger] segments(s)[k]) by {
        if k < before.len() {
            assert(segments(s)[k] == before[k]);
        } else {
            assert(segments(s)[k] == tail);
        }
    }
}

/// What `components` yields is a valid component sequence.
pub proof fn lemma_components_valid(s: Seq<char>)
    ensures
        valid_components(components(s)),
{
    lemma_segments_are_names(s);
}

/// The text of a valid component sequence is empty only for the empty
/// sequence, ends in a separator only when it is the root component alone,
/// and divides into the components it was made of.
pub proof fn lemma_components_of_join(cs: Seq<Seq<char>>)
    requires
        valid_components(cs),
    ensures
        join(cs).len() == 0 <==> cs.len() == 0,
        cs.len() > 0 ==> (is_separator(join(cs).last()) <==> cs.len() == 1 && cs[0]
            == root_component()),
        cs.len() > 0 ==> (is_separator(join(cs)[0]) <==> cs[0] == root_component()),
        components(join(cs)) == cs,
    decreases cs.len(),
{
    if cs.len() == 0 {
        assert(join(cs) =~= Seq::<char>::empty());
        assert(segments(Seq::<char>::empty()) =~= Seq::<Seq<char>>::empty());
        assert(components(join(cs)) =~= cs);
    } else {
        let init = cs.drop_last();
        let c = cs.last();
        let before = join(init);
        let s = join(cs);
        assert(valid_components(init)) by {
            assert forall|k: int| 0 <= k < init.len() implies is_name(#[trigger] init[k]) || (k
                == 0 && init[k] == root_component()) by {
                assert(init[k] == cs[k]);
            }
        }
        lemma_components_of_join(init);
        assert(c.len() > 0);
        if init.len() == 0 {
            assert(s =~= c);
            assert(cs =~= seq![c]);
            if c == root_component() {
                assert(last_separator(s) == 0);
                assert(s.skip(1) =~= Seq::<char>::empty());
                assert(s.take(0) =~= Seq::<char>::empty());
                assert(segments(Seq::<char>::empty()) =~= Seq::<Seq<char>>::empty());
                assert(segments(s) =~= Seq::<Seq<char>>::empty());
                assert(components(s) =~= cs);
            } else {
                assert(is_name(c));
                lemma_last_separator_is(s, -1);
                assert(s.skip(0) =~= s);
                assert(segments(s) =~= seq![c]);
                assert(!is_separator(s[0]));
                assert(!is_separator(s.last()));
            }
        } else {
            assert(is_name(c)) by {
                assert(cs[cs.len() - 1] == c);
            }
            assert(init[0] == cs[0]);
            if is_separator(before.last()) {
                // the text so far is the root component alone
                assert(init =~= seq![root_component()]);
                assert(before =~= root_component()) by {
                    assert(init.drop_last() =~= Seq::<Seq<char>>::empty());
                    assert(join(init.drop_last()) =~= Seq::<char>::empty());
                }
                assert(s =~= root_component() + c);
                assert forall|j: int| 0 < j < s.len() implies !is_separator(#[trigger] s[j]) by {
                    assert(s[j] == c[j - 1]);
                }
                lemma_last_separator_is(s, 0);
                assert(s.skip(1) =~= c);
                assert(s.take(0) =~= Seq::<char>::empty());
                assert(segments(Seq::<char>::empty()) =~= Seq::<Seq<char>>::empty());
                assert(segments(s) =~= seq![c]);
                assert(components(s) =~= cs);
                assert(s.last() == c.last());
            } else {
                let n = before.len() as int;
                assert(s =~= before.push('/') + c);
                assert forall|j: int| n < j < s.len() implies !is_separator(#[trigger] s[j]) by {
                    assert(s[j] == c[j - n - 1]);
                }
                assert(s[n] == '/');
                lemma_last_separator_is(s, n);
                assert(s.skip(n + 1) =~= c);
                assert(s.take(n) =~= before);
                assert(segments(s) =~= segments(before).push(c));
                assert(s[0] == before[0]);
                assert(components(s) =~= components(before).push(c));
                assert(components(s) =~= cs);
                assert(s.last() == c.last());
            }
        }
    }
}

/// Whether `c` can name a file.
pub fn is_file_name_text(c: &String) -> (r: bool)
    ensures
        r == is_file_name(c@),
{
    let text = c.as_str();
    let n: usize = text.unicode_len();
    if n == 0 {
        return false;
    }
    let mut i: usize = 0;
    while i < n
        invariant
            i <= n,
            n == text@.len(),
            text@ == c@,
            forall|j: int| 0 <= j < i ==> !is_separator(#[trigger] c@[j]),
        decreases n - i,
    {
        if text.get_char(i) == '/' {
            return false;
        }
        i = i + 1;
    }
    if n == 1 && text.get_char(0) == '.' {
        assert(c@ =~= current_dir_component());
        return false;
    }
    if n == 2 && text.get_char(0) == '.' && text.get_char(1) == '.' {
        assert(c@ =~= parent_dir_component());
        return false;
    }
    true
}

/// Divides the text of a path into its components.
pub fn split_components(path: &str) -> (out: Vec<String>)
    ensures
        strings_view(out@) == components(path@),
{
    let n: usize = path.unicode_len();
    let mut out: Vec<String> = Vec::new();
    if n > 0 && path.get_char(0) == '/' {
        let root: String = "/".to_owned();
        proof {
            reveal_strlit("/");
            assert(root@ =~= root_component());
        }
        out.push(root);
    }
    let ghost head = strings_view(out@);
    assert(head =~= if path@.len() > 0 && is_separator(path@[0]) {
        seq![root_component()]
    } else {
        Seq::empty()
    });
    assert(segments(Seq::<char>::empty()) =~= Seq::<Seq<char>>::empty());
    assert(path@.take(0) =~= Seq::<char>::empty());
    let mut start: usize = 0;
    let mut i: usize = 0;
    while i < n
        invariant
            start <= i <= n,
            n == path@.len(),
            last_separator(path@.take(i as int)) == start - 1,
            strings_view(out@) == head + (if start > 0 {
                segments(path@.take(start - 1))
            } else {
                Seq::empty()
            }),
        decreases n - i,
    {
        let ghost prefix = path@.take(i as int);
        let ghost next = path@.take(i + 1);
        assert(next.drop_last() =~= prefix);
        assert(next.last() == path@[i as int]);
        if path.get_char(i) == '/' {
            proof {
                lemma_last_separator_bounds(prefix);
                assert(prefix.skip(start as int) =~= path@.subrange(start as int, i as int));
                if start > 0 {
                    assert(prefix.take(start - 1) =~= path@.take(start - 1));
                }
            }
            if start < i {
                let piece: String = path.substring_char(start, i).to_owned();
                let ghost before = strings_view(out@);
                out.push(piece);
                assert(strings_view(out@) =~= before.push(piece@));
            }
            assert(strings_view(out@) =~= head + segments(prefix));
            start = i + 1;
        }
        i = i + 1;
    }
    proof {
        assert(path@.take(n as int) =~= path@);
        lemma_last_separator_bounds(path@);
        assert(path@.skip(start as int) =~= path@.subrange(start as int, n as int));
    }
    if start < n {
        let piece: String = path.substring_char(start, n).to_owned();
        let ghost before = strings_view(out@);
        out.push(piece);
        assert(strings_view(out@) =~= before.push(piece@));
    }
    assert(strings_view(out@) =~= head + segments(path@));
    out
}

/// Writes a component sequence out as the text of a path.
pub fn join_components(cs: &Vec<String>) -> (path: String)
    ensures
        path@ == join(strings_view(cs@)),
{
    let mut path: String = String::new();
    // whether the text so far is non-empty and does not end in a separator
    let mut open: bool = false;
    let mut i: usize = 0;
    assert(strings_view(cs@).take(0) =~= Seq::<Seq<char>>::empty());
    while i < cs.len()
        invariant
            i <= cs.len(),
            path@ == join(strings_view(cs@).take(i as int)),
            open == (path@.len() > 0 && !is_separator(path@.last())),
        decreases cs.len() - i,
    {
        let ghost before = path@;
        let ghost taken = strings_view(cs@).take(i + 1);
        assert(taken.drop_last() =~= strings_view(cs@).take(i as int));
        assert(taken.last() == cs@[i as int]@);
        let piece: &str = cs[i].as_str();
        let m: usize = piece.unicode_len();
        if open {
            proof {
                reveal_strlit("/");
                assert("/"@ =~= seq!['/']);
            }
            path.append("/");
            assert(path@ =~= before.push('/'));
        }
        path.append(piece);
        assert(path@ =~= join(taken));
        if m == 0 {
            open = false;
        } else {
            open = piece.get_char(m - 1) != '/';
        }
        i = i + 1;
    }
    assert(strings_view(cs@).take(cs.len() as int) =~= strings_view(cs@));
    path
}

} // verus!
