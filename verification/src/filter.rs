//! Exclusion patterns: `file:` globs for files, `dir:` globs for folders,
//! `!no-ext` for files without an extension, and plain globs for both.
//! The globs are compiled and matched by the `globset` crate.
use vstd::prelude::*;
use globset::{Glob, GlobSet, GlobSetBuilder};
use crate::text::{chars_of, chars_eq, string_of};
use crate::paths::{extension, file_name_or_empty, file_name_chars};

verus! {

#[verifier::external_type_specification]
#[verifier::external_body]
pub struct ExGlob(Glob);

#[verifier::external_type_specification]
#[verifier::external_body]
pub struct ExGlobSet(GlobSet);

#[verifier::external_type_specification]
#[verifier::external_body]
pub struct ExGlobSetBuilder(GlobSetBuilder);

#[verifier::external_type_specification]
#[verifier::external_body]
pub struct ExGlobError(globset::Error);

/// Whether `Glob::new` accepts the pattern: a function of the pattern alone.
pub uninterp spec fn glob_parses(pattern: Seq<char>) -> bool;

/// The pattern a parsed glob was built from (what `Glob::glob` returns).
pub uninterp spec fn glob_source(g: Glob) -> Seq<char>;

/// The patterns a builder holds, in the order they were added.
pub uninterp spec fn builder_patterns(b: GlobSetBuilder) -> Seq<Seq<char>>;

/// The patterns a set was built from.
pub uninterp spec fn set_patterns(s: GlobSet) -> Seq<Seq<char>>;

/// Whether `GlobSetBuilder::build` compiles a set of these patterns.
pub uninterp spec fn set_compiles(patterns: Seq<Seq<char>>) -> bool;

/// Whether the glob `pattern` matches `path`: a function of the two alone.
pub uninterp spec fn glob_matches(pattern: Seq<char>, path: Seq<char>) -> bool;

/// `Glob::new`: parses a glob with the default options; it fails exactly on
/// the patterns `glob_parses` refuses, and the glob it gives keeps the pattern.
#[verifier::external_body]
fn parse_glob(pattern: &str) -> (r: Result<Glob, globset::Error>)
    ensures
        r is Ok <==> glob_parses(pattern@),
        r matches Ok(g) ==> glob_source(g) == pattern@,
{
    Glob::new(pattern)
}

/// `GlobSetBuilder::new`: a builder holding no pattern.
#[verifier::external_body]
fn new_builder() -> (r: GlobSetBuilder)
    ensures
        builder_patterns(r) == Seq::<Seq<char>>::empty(),
{
    GlobSetBuilder::new()
}

/// `GlobSetBuilder::add`: appends the glob to the builder's patterns.
#[verifier::external_body]
fn add_glob(b: &mut GlobSetBuilder, g: Glob)
    ensures
        builder_patterns(*final(b)) == builder_patterns(*old(b)).push(glob_source(g)),
{
    b.add(g);
}

/// `GlobSetBuilder::build`: compiles the builder's patterns into one set; it
/// fails exactly where `set_compiles` says so.
#[verifier::external_body]
fn build_set(b: &GlobSetBuilder) -> (r: Result<GlobSet, globset::Error>)
    ensures
        r is Ok <==> set_compiles(builder_patterns(*b)),
        r matches Ok(s) ==> set_patterns(s) == builder_patterns(*b),
{
    b.build()
}

/// `GlobSet::is_match`: true if any glob of the set matches the path (its
/// documentation).
#[verifier::external_body]
fn set_is_match(s: &GlobSet, path: &str) -> (r: bool)
    ensures
        r == (exists|i: int| 0 <= i < set_patterns(*s).len() && glob_matches(#[trigger] set_patterns(*s)[i], path@)),
{
    s.is_match(path)
}

/// One exclusion rule: a compiled set of globs and what it applies to.
pub enum ExcludeRule {
    FilePattern(GlobSet),
    DirPattern(GlobSet),
    NoExt,
    General(GlobSet),
}

/// A rule by the patterns it holds.
pub enum RuleView {
    FilePattern(Seq<Seq<char>>),
    DirPattern(Seq<Seq<char>>),
    NoExt,
    General(Seq<Seq<char>>),
}

impl View for ExcludeRule {
    type V = RuleView;

    open spec fn view(&self) -> RuleView {
        match self {
            ExcludeRule::FilePattern(s) => RuleView::FilePattern(set_patterns(*s)),
            ExcludeRule::DirPattern(s) => RuleView::DirPattern(set_patterns(*s)),
            ExcludeRule::NoExt => RuleView::NoExt,
            ExcludeRule::General(s) => RuleView::General(set_patterns(*s)),
        }
    }
}

/// Why a list of patterns was refused.
#[derive(Debug)]
pub enum FilterError {
    /// A glob that does not parse, with the parser's error.
    InvalidPattern { pattern: String, error: globset::Error },
    /// A set of globs that does not compile.
    Unbuildable(globset::Error),
}

/// The exclusion rules of a scan.
pub struct ExcludeFilter {
    rules: Vec<ExcludeRule>,
}

impl View for ExcludeFilter {
    type V = Seq<RuleView>;

    closed spec fn view(&self) -> Seq<RuleView> {
        self.rules@.map_values(|r: ExcludeRule| r@)
    }
}

/// `p` begins with `pre`.
pub open spec fn starts_with(p: Seq<char>, pre: Seq<char>) -> bool {
    p.len() >= pre.len() && p.take(pre.len() as int) == pre
}

/// The pattern that excludes files without an extension.
pub open spec fn is_no_ext(p: Seq<char>) -> bool {
    p == "!no-ext"@
}

/// A `file:` pattern (that is not `!no-ext`).
pub open spec fn is_file_pattern(p: Seq<char>) -> bool {
    !is_no_ext(p) && starts_with(p, "file:"@)
}

/// A `dir:` pattern.
pub open spec fn is_dir_pattern(p: Seq<char>) -> bool {
    !is_no_ext(p) && !starts_with(p, "file:"@) && starts_with(p, "dir:"@)
}

/// The glob a pattern stands for: the text after `file:` or `dir:`, the whole
/// pattern otherwise, none for `!no-ext`.
pub open spec fn glob_of(p: Seq<char>) -> Option<Seq<char>> {
    if is_no_ext(p) {
        None
    } else if starts_with(p, "file:"@) {
        Some(p.skip(5))
    } else if starts_with(p, "dir:"@) {
        Some(p.skip(4))
    } else {
        Some(p)
    }
}

/// The globs of the `file:` patterns, in order.
pub open spec fn file_globs(ps: Seq<Seq<char>>) -> Seq<Seq<char>>
    decreases ps.len(),
{
    if ps.len() == 0 {
        Seq::empty()
    } else if is_file_pattern(ps.last()) {
        file_globs(ps.drop_last()).push(ps.last().skip(5))
    } else {
        file_globs(ps.drop_last())
    }
}

/// The globs of the `dir:` patterns, in order.
pub open spec fn dir_globs(ps: Seq<Seq<char>>) -> Seq<Seq<char>>
    decreases ps.len(),
{
    if ps.len() == 0 {
        Seq::empty()
    } else if is_dir_pattern(ps.last()) {
        dir_globs(ps.drop_last()).push(ps.last().skip(4))
    } else {
        dir_globs(ps.drop_last())
    }
}

/// The plain globs, in order.
pub open spec fn general_globs(ps: Seq<Seq<char>>) -> Seq<Seq<char>>
    decreases ps.len(),
{
    if ps.len() == 0 {
        Seq::empty()
    } else if !is_no_ext(ps.last()) && !starts_with(ps.last(), "file:"@) && !starts_with(ps.last(), "dir:"@) {
        general_globs(ps.drop_last()).push(ps.last())
    } else {
        general_globs(ps.drop_last())
    }
}

/// The first glob of the patterns that does not parse, if any.
pub open spec fn bad_glob(ps: Seq<Seq<char>>) -> Option<Seq<char>>
    decreases ps.len(),
{
    if ps.len() == 0 {
        None
    } else {
        match bad_glob(ps.drop_last()) {
            Some(g) => Some(g),
            None => match glob_of(ps.last()) {
                Some(g) => if glob_parses(g) { None } else { Some(g) },
                None => None,
            },
        }
    }
}

/// The rules the patterns give: files, folders, `!no-ext`, plain globs, each
/// where the patterns hold one.
pub open spec fn rules_of(ps: Seq<Seq<char>>) -> Seq<RuleView> {
    (if file_globs(ps).len() > 0 { seq![RuleView::FilePattern(file_globs(ps))] } else { Seq::empty() })
    + (if dir_globs(ps).len() > 0 { seq![RuleView::DirPattern(dir_globs(ps))] } else { Seq::empty() })
    + (if ps.contains("!no-ext"@) { seq![RuleView::NoExt] } else { Seq::empty() })
    + (if general_globs(ps).len() > 0 { seq![RuleView::General(general_globs(ps))] } else { Seq::empty() })
}

/// Whether one of the globs matches the text.
pub open spec fn any_matches(globs: Seq<Seq<char>>, text: Seq<char>) -> bool {
    exists|i: int| 0 <= i < globs.len() && glob_matches(#[trigger] globs[i], text)
}

/// Whether a glob set matches the file name or the whole path.
pub open spec fn set_hits(globs: Seq<Seq<char>>, path: Seq<char>) -> bool {
    any_matches(globs, file_name_or_empty(path)) || any_matches(globs, path)
}

/// Whether a rule skips the folder at `path`.
pub open spec fn rule_skips_dir(r: RuleView, path: Seq<char>) -> bool {
    match r {
        RuleView::DirPattern(g) => set_hits(g, path),
        RuleView::General(g) => set_hits(g, path),
        _ => false,
    }
}

/// Whether a rule skips the file at `path`.
pub open spec fn rule_skips_file(r: RuleView, path: Seq<char>) -> bool {
    match r {
        RuleView::FilePattern(g) => set_hits(g, path),
        RuleView::NoExt => extension(path) is None,
        RuleView::General(g) => set_hits(g, path),
        _ => false,
    }
}

fn strip(p: &Vec<char>, n: usize) -> (r: String)
    requires
        n <= p.len(),
    ensures
        r@ == p@.skip(n as int),
{
    let mut v: Vec<char> = Vec::new();
    let mut i = n;
    while i < p.len()
        invariant
            n <= i <= p.len(),
            v@ == p@.subrange(n as int, i as int),
        decreases p.len() - i,
    {
        v.push(p[i]);
        assert(p@.subrange(n as int, i as int).push(p@[i as int]) =~= p@.subrange(n as int, i + 1));
        i = i + 1;
    }
    string_of(&v)
}

fn has_prefix(p: &Vec<char>, pre: &str) -> (r: bool)
    ensures
        r == starts_with(p@, pre@),
{
    let q = chars_of(pre);
    if p.len() < q.len() {
        return false;
    }
    let mut i: usize = 0;
    while i < q.len()
        invariant
            i <= q.len() <= p.len(),
            q@ == pre@,
            forall|j: int| 0 <= j < i ==> p@[j] == q@[j],
        decreases q.len() - i,
    {
        if p[i] != q[i] {
            assert(p@.take(pre@.len() as int)[i as int] != pre@[i as int]);
            return false;
        }
        i = i + 1;
    }
    assert(p@.take(q.len() as int) =~= q@);
    true
}

fn compile(b: &GlobSetBuilder) -> (r: Result<GlobSet, FilterError>)
    ensures
        r is Ok <==> set_compiles(builder_patterns(*b)),
        r matches Ok(s) ==> set_patterns(s) == builder_patterns(*b),
        r matches Err(e) ==> e is Unbuildable,
{
    match build_set(b) {
        Ok(s) => Ok(s),
        Err(e) => Err(FilterError::Unbuildable(e)),
    }
}

impl ExcludeFilter {
    /// Compiles exclusion patterns. A pattern whose glob does not parse is
    /// reported (the first one); then a set that does not compile.
    pub fn from_patterns(patterns: &Vec<String>) -> (r: Result<ExcludeFilter, FilterError>)
        ensures
            ({
                let ps = patterns@.map_values(|s: String| s@);
                match bad_glob(ps) {
                    Some(g) => r matches Err(FilterError::InvalidPattern { pattern, .. }) && pattern@ == g,
                    None => if file_globs(ps).len() > 0 && !set_compiles(file_globs(ps)) {
                        r matches Err(FilterError::Unbuildable(_))
                    } else if dir_globs(ps).len() > 0 && !set_compiles(dir_globs(ps)) {
                        r matches Err(FilterError::Unbuildable(_))
                    } else if general_globs(ps).len() > 0 && !set_compiles(general_globs(ps)) {
                        r matches Err(FilterError::Unbuildable(_))
                    } else {
                        r matches Ok(f) && f@ == rules_of(ps)
                    },
                }
            }),
    {
        let ghost ps = patterns@.map_values(|s: String| s@);
        let mut file_b = new_builder();
        let mut dir_b = new_builder();
        let mut gen_b = new_builder();
        let mut has_no_ext = false;
        let mut has_file = false;
        let mut has_dir = false;
        let mut has_general = false;
        let mut i: usize = 0;
        while i < patterns.len()
            invariant
                i <= patterns.len(),
                ps == patterns@.map_values(|s: String| s@),
                bad_glob(ps.take(i as int)) is None,
                builder_patterns(file_b) == file_globs(ps.take(i as int)),
                builder_patterns(dir_b) == dir_globs(ps.take(i as int)),
                builder_patterns(gen_b) == general_globs(ps.take(i as int)),
                has_no_ext == ps.take(i as int).contains("!no-ext"@),
                has_file == (file_globs(ps.take(i as int)).len() > 0),
                has_dir == (dir_globs(ps.take(i as int)).len() > 0),
                has_general == (general_globs(ps.take(i as int)).len() > 0),
            decreases patterns.len() - i,
        {
            let p = chars_of(patterns[i].as_str());
            let ghost t = ps.take(i + 1);
            proof {
                assert(t.drop_last() =~= ps.take(i as int));
                assert(t.last() == p@);
                reveal_strlit("!no-ext");
                reveal_strlit("file:");
                reveal_strlit("dir:");
            }
            if chars_eq(&p, &chars_of("!no-ext")) {
                has_no_ext = true;
            } else if has_prefix(&p, "file:") {
                let g = strip(&p, 5);
                match parse_glob(g.as_str()) {
                    Ok(glob) => {
                        add_glob(&mut file_b, glob);
                        has_file = true;
                    },
                    Err(e) => {
                        proof { lemma_bad_glob_prefix(ps, i as int + 1); }
                        return Err(FilterError::InvalidPattern { pattern: g, error: e });
                    },
                }
            } else if has_prefix(&p, "dir:") {
                let g = strip(&p, 4);
                match parse_glob(g.as_str()) {
                    Ok(glob) => {
                        add_glob(&mut dir_b, glob);
                        has_dir = true;
                    },
                    Err(e) => {
                        proof { lemma_bad_glob_prefix(ps, i as int + 1); }
                        return Err(FilterError::InvalidPattern { pattern: g, error: e });
                    },
                }
            } else {
                let g = patterns[i].clone();
                match parse_glob(g.as_str()) {
                    Ok(glob) => {
                        add_glob(&mut gen_b, glob);
                        has_general = true;
                    },
                    Err(e) => {
                        proof { lemma_bad_glob_prefix(ps, i as int + 1); }
                        return Err(FilterError::InvalidPattern { pattern: g, error: e });
                    },
                }
            }
            proof {
                assert(t.contains("!no-ext"@) == (ps.take(i as int).contains("!no-ext"@) || p@ == "!no-ext"@)) by {
                    if t.contains("!no-ext"@) {
                        let j = choose|j: int| 0 <= j < t.len() && t[j] == "!no-ext"@;
                        if j < i {
                            assert(ps.take(i as int)[j] == t[j]);
                        }
                    }
                    if ps.take(i as int).contains("!no-ext"@) {
                        let j = choose|j: int| 0 <= j < i && ps.take(i as int)[j] == "!no-ext"@;
                        assert(t[j] == ps.take(i as int)[j]);
                    }
                    if p@ == "!no-ext"@ {
                        assert(t[i as int] == p@);
                    }
                }
            }
            i = i + 1;
        }
        proof {
            assert(ps.take(patterns.len() as int) =~= ps);
        }
        let mut rules: Vec<ExcludeRule> = Vec::new();
        if has_file {
            match compile(&file_b) {
                Ok(s) => rules.push(ExcludeRule::FilePattern(s)),
                Err(e) => return Err(e),
            }
        }
        if has_dir {
            match compile(&dir_b) {
                Ok(s) => rules.push(ExcludeRule::DirPattern(s)),
                Err(e) => return Err(e),
            }
        }
        if has_no_ext {
            rules.push(ExcludeRule::NoExt);
        }
        if has_general {
            match compile(&gen_b) {
                Ok(s) => rules.push(ExcludeRule::General(s)),
                Err(e) => return Err(e),
            }
        }
        let f = ExcludeFilter { rules };
        assert(f@ =~= rules_of(ps));
        Ok(f)
    }
}

impl ExcludeFilter {
    /// Whether the folder at `path` is skipped: a `dir:` or plain glob matches
    /// its name or its whole path.
    pub fn should_skip_dir(&self, path: &str) -> (r: bool)
        ensures
            r == (exists|i: int| 0 <= i < self@.len() && rule_skips_dir(#[trigger] self@[i], path@)),
    {
        let name = string_of(&file_name_chars(path));
        let mut i: usize = 0;
        while i < self.rules.len()
            invariant
                i <= self.rules.len(),
                name@ == file_name_or_empty(path@),
                forall|j: int| 0 <= j < i ==> !rule_skips_dir(#[trigger] self@[j], path@),
            decreases self.rules.len() - i,
        {
            assert(self@[i as int] == self.rules@[i as int]@);
            let hit = match &self.rules[i] {
                ExcludeRule::DirPattern(gs) => set_is_match(gs, name.as_str()) || set_is_match(gs, path),
                ExcludeRule::General(gs) => set_is_match(gs, name.as_str()) || set_is_match(gs, path),
                _ => false,
            };
            if hit {
                return true;
            }
            i = i + 1;
        }
        false
    }

    /// Whether the file at `path` is skipped: a `file:` or plain glob matches
    /// its name or its whole path, or `!no-ext` is set and it has no extension.
    pub fn should_skip_file(&self, path: &str) -> (r: bool)
        ensures
            r == (exists|i: int| 0 <= i < self@.len() && rule_skips_file(#[trigger] self@[i], path@)),
    {
        let name = string_of(&file_name_chars(path));
        let no_ext = crate::paths::extension_bounds(&chars_of(path)).is_none();
        let mut i: usize = 0;
        while i < self.rules.len()
            invariant
                i <= self.rules.len(),
                name@ == file_name_or_empty(path@),
                no_ext == (extension(path@) is None),
                forall|j: int| 0 <= j < i ==> !rule_skips_file(#[trigger] self@[j], path@),
            decreases self.rules.len() - i,
        {
            assert(self@[i as int] == self.rules@[i as int]@);
            let hit = match &self.rules[i] {
                ExcludeRule::FilePattern(gs) => set_is_match(gs, name.as_str()) || set_is_match(gs, path),
                ExcludeRule::NoExt => no_ext,
                ExcludeRule::General(gs) => set_is_match(gs, name.as_str()) || set_is_match(gs, path),
                _ => false,
            };
            if hit {
                return true;
            }
            i = i + 1;
        }
        false
    }
}

proof fn lemma_bad_glob_prefix(ps: Seq<Seq<char>>, n: int)
    requires
        0 < n <= ps.len(),
        bad_glob(ps.take(n)) is Some,
    ensures
        bad_glob(ps) == bad_glob(ps.take(n)),
    decreases ps.len(),
{
    if n < ps.len() {
        assert(ps.drop_last().take(n) =~= ps.take(n));
        lemma_bad_glob_prefix(ps.drop_last(), n);
    } else {
        assert(ps.take(n) =~= ps);
    }
}


proof fn lemma_only_file_globs(ps: Seq<Seq<char>>)
    requires
        forall|i: int| 0 <= i < ps.len() ==> is_file_pattern(#[trigger] ps[i]),
    ensures
        dir_globs(ps).len() == 0,
        general_globs(ps).len() == 0,
        !ps.contains("!no-ext"@),
    decreases ps.len(),
{
    if ps.len() > 0 {
        assert(is_file_pattern(ps[ps.len() - 1]));
        lemma_only_file_globs(ps.drop_last());
        if ps.contains("!no-ext"@) {
            let i = choose|i: int| 0 <= i < ps.len() && ps[i] == "!no-ext"@;
            assert(is_file_pattern(ps[i]));
        }
    }
}

proof fn lemma_only_dir_globs(ps: Seq<Seq<char>>)
    requires
        forall|i: int| 0 <= i < ps.len() ==> is_dir_pattern(#[trigger] ps[i]),
    ensures
        file_globs(ps).len() == 0,
        general_globs(ps).len() == 0,
        !ps.contains("!no-ext"@),
    decreases ps.len(),
{
    if ps.len() > 0 {
        assert(is_dir_pattern(ps[ps.len() - 1]));
        lemma_only_dir_globs(ps.drop_last());
        if ps.contains("!no-ext"@) {
            let i = choose|i: int| 0 <= i < ps.len() && ps[i] == "!no-ext"@;
            assert(is_dir_pattern(ps[i]));
        }
    }
}

/// `file:` patterns only ever skip files: no folder is skipped by them.
pub proof fn law_file_patterns_skip_no_folder(ps: Seq<Seq<char>>, path: Seq<char>)
    requires
        forall|i: int| 0 <= i < ps.len() ==> is_file_pattern(#[trigger] ps[i]),
    ensures
        forall|i: int| 0 <= i < rules_of(ps).len() ==> !rule_skips_dir(#[trigger] rules_of(ps)[i], path),
{
    lemma_only_file_globs(ps);
    let r = rules_of(ps);
    assert forall|i: int| 0 <= i < r.len() implies !rule_skips_dir(#[trigger] r[i], path) by {
        assert(r[i] is FilePattern);
    }
}

/// `dir:` patterns only ever skip folders: no file is skipped by them.
pub proof fn law_dir_patterns_skip_no_file(ps: Seq<Seq<char>>, path: Seq<char>)
    requires
        forall|i: int| 0 <= i < ps.len() ==> is_dir_pattern(#[trigger] ps[i]),
    ensures
        forall|i: int| 0 <= i < rules_of(ps).len() ==> !rule_skips_file(#[trigger] rules_of(ps)[i], path),
{
    lemma_only_dir_globs(ps);
    let r = rules_of(ps);
    assert forall|i: int| 0 <= i < r.len() implies !rule_skips_file(#[trigger] r[i], path) by {
        assert(r[i] is DirPattern);
    }
}

/// A pattern with no `file:` or `dir:` prefix that is not `!no-ext`.
pub open spec fn is_plain_pattern(p: Seq<char>) -> bool {
    !is_no_ext(p) && !starts_with(p, "file:"@) && !starts_with(p, "dir:"@)
}

proof fn lemma_plain_globs(ps: Seq<Seq<char>>)
    requires
        forall|i: int| 0 <= i < ps.len() ==> is_plain_pattern(#[trigger] ps[i]),
    ensures
        general_globs(ps) == ps,
        file_globs(ps).len() == 0,
        dir_globs(ps).len() == 0,
        !ps.contains("!no-ext"@),
    decreases ps.len(),
{
    if ps.len() > 0 {
        assert(is_plain_pattern(ps[ps.len() - 1]));
        lemma_plain_globs(ps.drop_last());
        assert(ps.drop_last().push(ps.last()) =~= ps);
        if ps.contains("!no-ext"@) {
            let i = choose|i: int| 0 <= i < ps.len() && ps[i] == "!no-ext"@;
            assert(is_plain_pattern(ps[i]));
        }
    }
}

proof fn lemma_file_globs_all(ps: Seq<Seq<char>>)
    requires
        forall|i: int| 0 <= i < ps.len() ==> is_file_pattern(#[trigger] ps[i]),
    ensures
        file_globs(ps) == ps.map_values(|p: Seq<char>| p.skip(5)),
    decreases ps.len(),
{
    if ps.len() > 0 {
        assert(is_file_pattern(ps[ps.len() - 1]));
        lemma_file_globs_all(ps.drop_last());
        assert(ps.map_values(|p: Seq<char>| p.skip(5)) =~= ps.drop_last().map_values(|p: Seq<char>| p.skip(5)).push(
            ps.last().skip(5)));
    }
}

proof fn lemma_dir_globs_all(ps: Seq<Seq<char>>)
    requires
        forall|i: int| 0 <= i < ps.len() ==> is_dir_pattern(#[trigger] ps[i]),
    ensures
        dir_globs(ps) == ps.map_values(|p: Seq<char>| p.skip(4)),
    decreases ps.len(),
{
    if ps.len() > 0 {
        assert(is_dir_pattern(ps[ps.len() - 1]));
        lemma_dir_globs_all(ps.drop_last());
        assert(ps.map_values(|p: Seq<char>| p.skip(4)) =~= ps.drop_last().map_values(|p: Seq<char>| p.skip(4)).push(
            ps.last().skip(4)));
    }
}

/// Plain patterns skip files and folders alike: the file, or the folder, at
/// `path` is skipped exactly when one of the patterns matches its name or its
/// whole path.
pub proof fn law_plain_patterns(ps: Seq<Seq<char>>, path: Seq<char>)
    requires
        forall|i: int| 0 <= i < ps.len() ==> is_plain_pattern(#[trigger] ps[i]),
    ensures
        (exists|i: int| 0 <= i < rules_of(ps).len() && rule_skips_file(#[trigger] rules_of(ps)[i], path))
            <==> (exists|k: int| 0 <= k < ps.len() && (glob_matches(#[trigger] ps[k], file_name_or_empty(path))
            || glob_matches(ps[k], path))),
        (exists|i: int| 0 <= i < rules_of(ps).len() && rule_skips_dir(#[trigger] rules_of(ps)[i], path))
            <==> (exists|k: int| 0 <= k < ps.len() && (glob_matches(#[trigger] ps[k], file_name_or_empty(path))
            || glob_matches(ps[k], path))),
{
    lemma_plain_globs(ps);
    let r = rules_of(ps);
    let name = file_name_or_empty(path);
    if ps.len() > 0 {
        assert(r =~= seq![RuleView::General(ps)]);
        assert(rule_skips_file(r[0], path) == set_hits(ps, path));
        assert(rule_skips_dir(r[0], path) == set_hits(ps, path));
        if exists|k: int| 0 <= k < ps.len() && (glob_matches(#[trigger] ps[k], name) || glob_matches(ps[k], path)) {
            let k = choose|k: int| 0 <= k < ps.len() && (glob_matches(#[trigger] ps[k], name) || glob_matches(ps[k], path));
            assert(set_hits(ps, path));
        }
    } else {
        assert(r =~= Seq::<RuleView>::empty());
    }
}

/// `file:` patterns skip exactly the files whose name or whole path one of
/// their globs (the text after `file:`) matches.
pub proof fn law_file_patterns(ps: Seq<Seq<char>>, path: Seq<char>)
    requires
        forall|i: int| 0 <= i < ps.len() ==> is_file_pattern(#[trigger] ps[i]),
    ensures
        (exists|i: int| 0 <= i < rules_of(ps).len() && rule_skips_file(#[trigger] rules_of(ps)[i], path))
            <==> (exists|k: int| 0 <= k < ps.len() && (glob_matches(#[trigger] ps[k].skip(5), file_name_or_empty(path))
            || glob_matches(ps[k].skip(5), path))),
{
    lemma_only_file_globs(ps);
    lemma_file_globs_all(ps);
    let g = ps.map_values(|p: Seq<char>| p.skip(5));
    let r = rules_of(ps);
    let name = file_name_or_empty(path);
    if ps.len() > 0 {
        assert(r =~= seq![RuleView::FilePattern(g)]);
        assert(rule_skips_file(r[0], path) == set_hits(g, path));
        if exists|k: int| 0 <= k < ps.len() && (glob_matches(#[trigger] ps[k].skip(5), name) || glob_matches(ps[k].skip(5), path)) {
            let k = choose|k: int| 0 <= k < ps.len() && (glob_matches(#[trigger] ps[k].skip(5), name) || glob_matches(
                ps[k].skip(5),
                path,
            ));
            assert(g[k] == ps[k].skip(5));
            assert(set_hits(g, path));
        }
        if set_hits(g, path) {
            if any_matches(g, name) {
                let k = choose|k: int| 0 <= k < g.len() && glob_matches(#[trigger] g[k], name);
                assert(glob_matches(ps[k].skip(5), name));
            } else {
                let k = choose|k: int| 0 <= k < g.len() && glob_matches(#[trigger] g[k], path);
                assert(glob_matches(ps[k].skip(5), path));
            }
        }
    } else {
        assert(file_globs(ps).len() == 0);
        assert(r =~= Seq::<RuleView>::empty());
    }
}

/// `dir:` patterns skip exactly the folders whose name or whole path one of
/// their globs (the text after `dir:`) matches.
pub proof fn law_dir_patterns(ps: Seq<Seq<char>>, path: Seq<char>)
    requires
        forall|i: int| 0 <= i < ps.len() ==> is_dir_pattern(#[trigger] ps[i]),
    ensures
        (exists|i: int| 0 <= i < rules_of(ps).len() && rule_skips_dir(#[trigger] rules_of(ps)[i], path))
            <==> (exists|k: int| 0 <= k < ps.len() && (glob_matches(#[trigger] ps[k].skip(4), file_name_or_empty(path))
            || glob_matches(ps[k].skip(4), path))),
{
    lemma_only_dir_globs(ps);
    lemma_dir_globs_all(ps);
    let g = ps.map_values(|p: Seq<char>| p.skip(4));
    let r = rules_of(ps);
    let name = file_name_or_empty(path);
    if ps.len() > 0 {
        assert(r =~= seq![RuleView::DirPattern(g)]);
        assert(rule_skips_dir(r[0], path) == set_hits(g, path));
        if exists|k: int| 0 <= k < ps.len() && (glob_matches(#[trigger] ps[k].skip(4), name) || glob_matches(ps[k].skip(4), path)) {
            let k = choose|k: int| 0 <= k < ps.len() && (glob_matches(#[trigger] ps[k].skip(4), name) || glob_matches(
                ps[k].skip(4),
                path,
            ));
            assert(g[k] == ps[k].skip(4));
            assert(set_hits(g, path));
        }
        if set_hits(g, path) {
            if any_matches(g, name) {
                let k = choose|k: int| 0 <= k < g.len() && glob_matches(#[trigger] g[k], name);
                assert(glob_matches(ps[k].skip(4), name));
            } else {
                let k = choose|k: int| 0 <= k < g.len() && glob_matches(#[trigger] g[k], path);
                assert(glob_matches(ps[k].skip(4), path));
            }
        }
    } else {
        assert(dir_globs(ps).len() == 0);
        assert(r =~= Seq::<RuleView>::empty());
    }
}

/// `!no-ext` skips exactly the files without an extension, and no folder.
pub proof fn law_no_ext_pattern(path: Seq<char>)
    ensures
        (exists|i: int| 0 <= i < rules_of(seq!["!no-ext"@]).len() && rule_skips_file(
            #[trigger] rules_of(seq!["!no-ext"@])[i],
            path,
        )) <==> extension(path) is None,
        !(exists|i: int| 0 <= i < rules_of(seq!["!no-ext"@]).len() && rule_skips_dir(
            #[trigger] rules_of(seq!["!no-ext"@])[i],
            path,
        )),
{
    let ps = seq!["!no-ext"@];
    assert(ps.drop_last() =~= Seq::<Seq<char>>::empty());
    assert(ps.last() == "!no-ext"@);
    assert(file_globs(ps.drop_last()).len() == 0);
    assert(dir_globs(ps.drop_last()).len() == 0);
    assert(general_globs(ps.drop_last()).len() == 0);
    assert(file_globs(ps).len() == 0);
    assert(dir_globs(ps).len() == 0);
    assert(general_globs(ps).len() == 0);
    assert(ps[0] == "!no-ext"@);
    assert(ps.contains("!no-ext"@));
    assert(rules_of(ps) =~= seq![RuleView::NoExt]);
    assert(rule_skips_file(rules_of(ps)[0], path) == (extension(path) is None));
}

} // verus!
