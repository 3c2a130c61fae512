//! Exclusion rules. A rule is either an exact name ("node_modules") or a
//! wildcard "*suffix" ("*.log"). A relative path is excluded when any of
//! its '/'-separated segments, at any depth, matches any rule.

use vstd::prelude::*;
use vstd::hash_set::StringHashSet;
use crate::text::{chars_of, split_chars, split_on, string_of, views};

verus! {

/// A wildcard rule: it starts with '*'.
pub open spec fn is_glob(p: Seq<char>) -> bool {
    p.len() > 0 && p[0] == '*'
}

/// What a segment must end with to match a wildcard rule.
pub open spec fn glob_suffix(p: Seq<char>) -> Seq<char> {
    p.drop_first()
}

/// `seg` ends with `suffix`.
pub open spec fn ends_with(seg: Seq<char>, suffix: Seq<char>) -> bool {
    suffix.len() <= seg.len() && seg.skip(seg.len() - suffix.len()) == suffix
}

/// Whether one rule matches one path segment.
pub open spec fn rule_matches(p: Seq<char>, seg: Seq<char>) -> bool {
    if is_glob(p) {
        ends_with(seg, glob_suffix(p))
    } else {
        p == seg
    }
}

/// Whether some rule matches a segment.
pub open spec fn segment_excluded(rules: Seq<Seq<char>>, seg: Seq<char>) -> bool {
    exists|j: int| 0 <= j < rules.len() && rule_matches(#[trigger] rules[j], seg)
}

/// Whether a relative path is excluded: some segment is matched by some rule.
pub open spec fn excluded(rules: Seq<Seq<char>>, rel: Seq<char>) -> bool {
    exists|i: int|
        0 <= i < split_on(rel, '/').len() && segment_excluded(rules, #[trigger] split_on(rel, '/')[i])
}

/// The rules used when none are configured: version-control and build
/// directories, caches, and editor temporaries.
pub fn default_excludes() -> (v: Vec<String>)
    ensures
        v@.map_values(|s: String| s@) == seq![
            ".git"@,
            ".svn"@,
            "node_modules"@,
            "__pycache__"@,
            "target"@,
            "*.tmp"@,
            "*.swp"@,
        ],
{
    let mut v: Vec<String> = Vec::new();
    v.push(String::from_str(".git"));
    v.push(String::from_str(".svn"));
    v.push(String::from_str("node_modules"));
    v.push(String::from_str("__pycache__"));
    v.push(String::from_str("target"));
    v.push(String::from_str("*.tmp"));
    v.push(String::from_str("*.swp"));
    assert(v@.map_values(|s: String| s@) =~= seq![
        ".git"@,
        ".svn"@,
        "node_modules"@,
        "__pycache__"@,
        "target"@,
        "*.tmp"@,
        "*.swp"@,
    ]);
    v
}

/// The exact-name rules, as a set.
pub open spec fn exact_names(rules: Seq<Seq<char>>) -> Set<Seq<char>>
    decreases rules.len(),
{
    if rules.len() == 0 {
        Set::empty()
    } else if is_glob(rules.last()) {
        exact_names(rules.drop_last())
    } else {
        exact_names(rules.drop_last()).insert(rules.last())
    }
}

/// The suffixes of the wildcard rules, in order.
pub open spec fn glob_suffixes(rules: Seq<Seq<char>>) -> Seq<Seq<char>>
    decreases rules.len(),
{
    if rules.len() == 0 {
        seq![]
    } else if is_glob(rules.last()) {
        glob_suffixes(rules.drop_last()).push(glob_suffix(rules.last()))
    } else {
        glob_suffixes(rules.drop_last())
    }
}

/// Some wildcard suffix in `sufs` ends `seg`.
pub open spec fn some_suffix_ends(sufs: Seq<Seq<char>>, seg: Seq<char>) -> bool {
    exists|k: int| 0 <= k < sufs.len() && ends_with(seg, #[trigger] sufs[k])
}

/// A segment is matched by a rule exactly when it is one of the exact
/// names or ends with one of the wildcard suffixes.
proof fn lemma_segment_excluded(rules: Seq<Seq<char>>, seg: Seq<char>)
    ensures
        segment_excluded(rules, seg) == (exact_names(rules).contains(seg) || some_suffix_ends(
            glob_suffixes(rules),
            seg,
        )),
    decreases rules.len(),
{
    if rules.len() > 0 {
        let init = rules.drop_last();
        let last = rules.last();
        lemma_segment_excluded(init, seg);
        let sufs = glob_suffixes(rules);
        let init_sufs = glob_suffixes(init);
        if segment_excluded(rules, seg) {
            let j = choose|j: int| 0 <= j < rules.len() && rule_matches(#[trigger] rules[j], seg);
            if j < rules.len() - 1 {
                assert(init[j] == rules[j]);
                assert(segment_excluded(init, seg));
                if some_suffix_ends(init_sufs, seg) {
                    let k = choose|k: int| 0 <= k < init_sufs.len() && ends_with(seg, #[trigger] init_sufs[k]);
                    if is_glob(last) {
                        assert(sufs[k] == init_sufs[k]);
                    }
                }
            } else if is_glob(last) {
                assert(sufs[sufs.len() - 1] == glob_suffix(last));
            }
        }
        if some_suffix_ends(sufs, seg) {
            let k = choose|k: int| 0 <= k < sufs.len() && ends_with(seg, #[trigger] sufs[k]);
            if is_glob(last) && k == sufs.len() - 1 {
                assert(rule_matches(rules[rules.len() - 1], seg));
            } else {
                assert(sufs[k] == init_sufs[k]);
                assert(some_suffix_ends(init_sufs, seg));
                let j = choose|j: int| 0 <= j < init.len() && rule_matches(#[trigger] init[j], seg);
                assert(rules[j] == init[j]);
            }
        }
        if exact_names(rules).contains(seg) {
            if seg == last && !is_glob(last) {
                assert(rule_matches(rules[rules.len() - 1], seg));
            } else {
                assert(exact_names(init).contains(seg));
                let j = choose|j: int| 0 <= j < init.len() && rule_matches(#[trigger] init[j], seg);
                assert(rules[j] == init[j]);
            }
        }
    }
}

/// Exclusion rules compiled for lookup: exact names in a hash set,
/// wildcard suffixes in a list.
pub struct ExcludeSet {
    exact: StringHashSet,
    suffixes: Vec<Vec<char>>,
    rules: Ghost<Seq<Seq<char>>>,
}

impl ExcludeSet {
    /// The rules this set was built from.
    pub closed spec fn rules(&self) -> Seq<Seq<char>> {
        self.rules@
    }

    /// The compiled lookup structures agree with the rules.
    pub closed spec fn wf(&self) -> bool {
        &&& self.exact@ == exact_names(self.rules@)
        &&& views(self.suffixes@) == glob_suffixes(self.rules@)
    }

    /// Compiles a list of rules.
    pub fn new(rules: &Vec<String>) -> (s: Self)
        ensures
            s.wf(),
            s.rules() == rules@.map_values(|r: String| r@),
    {
        let ghost all = rules@.map_values(|r: String| r@);
        let mut exact = StringHashSet::new();
        let mut suffixes: Vec<Vec<char>> = Vec::new();
        let mut i: usize = 0;
        assert(all.take(0) =~= Seq::<Seq<char>>::empty());
        assert(exact@ =~= exact_names(all.take(0)));
        while i < rules.len()
            invariant
                i <= rules.len(),
                all == rules@.map_values(|r: String| r@),
                exact@ == exact_names(all.take(i as int)),
                views(suffixes@) == glob_suffixes(all.take(i as int)),
            decreases rules.len() - i,
        {
            let chars = chars_of(rules[i].as_str());
            assert(all[i as int] == chars@);
            assert(all.take(i + 1).drop_last() =~= all.take(i as int));
            assert(all.take(i + 1).last() == chars@);
            if chars.len() > 0 && chars[0] == '*' {
                let mut suffix: Vec<char> = Vec::new();
                let mut k: usize = 1;
                while k < chars.len()
                    invariant
                        1 <= k <= chars.len(),
                        suffix@ == chars@.subrange(1, k as int),
                    decreases chars.len() - k,
                {
                    suffix.push(chars[k]);
                    k = k + 1;
                    assert(suffix@ =~= chars@.subrange(1, k as int));
                }
                assert(suffix@ =~= glob_suffix(chars@));
                let ghost before = views(suffixes@);
                suffixes.push(suffix);
                assert(views(suffixes@) =~= before.push(glob_suffix(chars@)));
            } else {
                exact.insert(rules[i].clone());
            }
            i = i + 1;
        }
        assert(all.take(rules.len() as int) =~= all);
        ExcludeSet { exact, suffixes, rules: Ghost(all) }
    }
}

fn ends_with_chars(seg: &Vec<char>, suffix: &Vec<char>) -> (r: bool)
    ensures
        r == ends_with(seg@, suffix@),
{
    if suffix.len() > seg.len() {
        return false;
    }
    let off = seg.len() - suffix.len();
    let mut i: usize = 0;
    while i < suffix.len()
        invariant
            off == seg.len() - suffix.len(),
            i <= suffix.len(),
            forall|k: int| 0 <= k < i ==> seg@[off + k] == suffix@[k],
        decreases suffix.len() - i,
    {
        if seg[off + i] != suffix[i] {
            assert(seg@.skip(off as int)[i as int] != suffix@[i as int]);
            return false;
        }
        i = i + 1;
    }
    assert(seg@.skip(off as int) =~= suffix@);
    true
}

impl ExcludeSet {
    fn segment_matches(&self, seg: &Vec<char>) -> (r: bool)
        requires
            self.wf(),
        ensures
            r == segment_excluded(self.rules(), seg@),
    {
        proof {
            lemma_segment_excluded(self.rules@, seg@);
        }
        let name = string_of(seg);
        if self.exact.contains(name.as_str()) {
            return true;
        }
        let mut k: usize = 0;
        while k < self.suffixes.len()
            invariant
                self.wf(),
                k <= self.suffixes.len(),
                !exact_names(self.rules@).contains(seg@),
                segment_excluded(self.rules(), seg@) == (exact_names(self.rules@).contains(seg@)
                    || some_suffix_ends(glob_suffixes(self.rules@), seg@)),
                forall|m: int| 0 <= m < k ==> !ends_with(seg@, #[trigger] views(self.suffixes@)[m]),
            decreases self.suffixes.len() - k,
        {
            if ends_with_chars(seg, &self.suffixes[k]) {
                assert(ends_with(seg@, views(self.suffixes@)[k as int]));
                assert(ends_with(seg@, glob_suffixes(self.rules@)[k as int]));
                assert(some_suffix_ends(glob_suffixes(self.rules@), seg@));
                return true;
            }
            k = k + 1;
        }
        assert(!some_suffix_ends(glob_suffixes(self.rules@), seg@)) by {
            if some_suffix_ends(glob_suffixes(self.rules@), seg@) {
                let m = choose|m: int|
                    0 <= m < glob_suffixes(self.rules@).len() && ends_with(seg@, #[trigger] glob_suffixes(self.rules@)[m]);
                assert(views(self.suffixes@)[m] == glob_suffixes(self.rules@)[m]);
            }
        }
        false
    }

    /// Whether a relative path is excluded by these rules.
    pub fn matches(&self, rel: &str) -> (r: bool)
        requires
            self.wf(),
        ensures
            r == excluded(self.rules(), rel@),
    {
        let chars = chars_of(rel);
        let segs = split_chars(&chars, '/');
        let mut i: usize = 0;
        while i < segs.len()
            invariant
                self.wf(),
                views(segs@) == split_on(rel@, '/'),
                i <= segs.len(),
                forall|m: int| 0 <= m < i ==> !segment_excluded(self.rules(), #[trigger] split_on(rel@, '/')[m]),
            decreases segs.len() - i,
        {
            if self.segment_matches(&segs[i]) {
                assert(segment_excluded(self.rules(), split_on(rel@, '/')[i as int]));
                return true;
            }
            i = i + 1;
        }
        false
    }
}

} // verus!

verus! {

/// Deep matching: a segment that some rule matches excludes every path in
/// which it appears, at the top level, at any depth, and as the file name.
pub proof fn lemma_excluded_at_any_depth(
    rules: Seq<Seq<char>>,
    outer: Seq<char>,
    name: Seq<char>,
    inner: Seq<char>,
)
    requires
        segment_excluded(rules, name),
        forall|j: int| 0 <= j < name.len() ==> name[j] != '/',
    ensures
        excluded(rules, name),
        excluded(rules, outer.push('/') + name),
        excluded(rules, name.push('/') + inner),
        excluded(rules, outer.push('/') + (name.push('/') + inner)),
{
    crate::text::lemma_split_whole(name, '/');
    crate::text::lemma_split_on(outer, '/');
    crate::text::lemma_split_on(inner, '/');
    assert(split_on(name, '/')[0] == name);
    crate::text::lemma_split_concat(outer, name, '/');
    let o = split_on(outer, '/');
    assert(split_on(outer.push('/') + name, '/')[o.len() as int] == name);
    crate::text::lemma_split_concat(name, inner, '/');
    assert(split_on(name.push('/') + inner, '/')[0] == name);
    crate::text::lemma_split_concat(outer, name.push('/') + inner, '/');
    assert(split_on(outer.push('/') + (name.push('/') + inner), '/')[o.len() as int] == name);
}

} // verus!

verus! {

/// A segment ends with a suffix exactly when it is some text followed by
/// the whole suffix, every character of the suffix included: `a + b` ends
/// with `b`, and a segment that ends with `b` is its own beginning followed
/// by `b`; so "blog" does not end with ".log".
pub proof fn lemma_ends_with_is_suffix(seg: Seq<char>, suffix: Seq<char>, a: Seq<char>, b: Seq<char>)
    ensures
        ends_with(a + b, b),
        ends_with(seg, suffix) ==> seg == seg.take(seg.len() - suffix.len()) + suffix,
        ends_with(seg, suffix) <==> exists|pre: Seq<char>| seg == #[trigger] (pre + suffix),
{
    assert((a + b).skip((a + b).len() - b.len()) =~= b);
    if ends_with(seg, suffix) {
        assert(seg =~= seg.take(seg.len() - suffix.len()) + suffix);
    }
    if exists|pre: Seq<char>| seg == #[trigger] (pre + suffix) {
        let pre = choose|pre: Seq<char>| seg == #[trigger] (pre + suffix);
        assert((pre + suffix).skip((pre + suffix).len() - suffix.len()) =~= suffix);
    }
}

/// A path is excluded exactly when one of its '/'-separated segments is
/// named by an exact rule, or is some text followed by the whole suffix of
/// a wildcard rule (`*.log` matches "app.log", not "blog").
pub proof fn lemma_excluded_means(rules: Seq<Seq<char>>, rel: Seq<char>)
    ensures
        excluded(rules, rel) <==> exists|i: int, j: int|
            0 <= i < split_on(rel, '/').len() && 0 <= j < rules.len() && (if is_glob(#[trigger] rules[j]) {
                exists|pre: Seq<char>| #[trigger] split_on(rel, '/')[i] == pre + glob_suffix(rules[j])
            } else {
                rules[j] == split_on(rel, '/')[i]
            }),
{
    let segs = split_on(rel, '/');
    if excluded(rules, rel) {
        let i = choose|i: int| 0 <= i < segs.len() && segment_excluded(rules, #[trigger] segs[i]);
        let j = choose|j: int| 0 <= j < rules.len() && rule_matches(#[trigger] rules[j], segs[i]);
        if is_glob(rules[j]) {
            lemma_ends_with_is_suffix(segs[i], glob_suffix(rules[j]), seq![], seq![]);
            let pre = segs[i].take(segs[i].len() - glob_suffix(rules[j]).len());
            assert(segs[i] == pre + glob_suffix(rules[j]));
        }
    }
    if exists|i: int, j: int|
        0 <= i < segs.len() && 0 <= j < rules.len() && (if is_glob(#[trigger] rules[j]) {
            exists|pre: Seq<char>| #[trigger] segs[i] == pre + glob_suffix(rules[j])
        } else {
            rules[j] == segs[i]
        }) {
        let (i, j) = choose|i: int, j: int|
            0 <= i < segs.len() && 0 <= j < rules.len() && (if is_glob(#[trigger] rules[j]) {
                exists|pre: Seq<char>| #[trigger] segs[i] == pre + glob_suffix(rules[j])
            } else {
                rules[j] == segs[i]
            });
        if is_glob(rules[j]) {
            lemma_ends_with_is_suffix(segs[i], glob_suffix(rules[j]), seq![], seq![]);
        }
        assert(rule_matches(rules[j], segs[i]));
        assert(segment_excluded(rules, segs[i]));
    }
}

} // verus!
