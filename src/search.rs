//! The grep engine: which files a search reads, and which lines of them it
//! reports, up to a bound on the number of results.

use vstd::prelude::*;

use crate::error::AgentGearError;
use crate::paths::{relative_path, relative_to};
use crate::index::pattern_too_deep;
use crate::pattern::{
    glob_accepts, glob_depth, glob_depth_ok, glob_matches, regex_accepts, regex_finds, GlobPattern,
    RegexPattern, MAX_GLOB_DEPTH,
};
use crate::text::{lines_of, split_lines, views};

verus! {

/// The largest file a search reads by default: ten mebibytes.
pub const DEFAULT_MAX_FILE_SIZE: u64 = 10485760;

/// The default bound on the number of results.
pub const DEFAULT_MAX_RESULTS: usize = 1000;

/// How a search runs.
#[derive(Clone, Copy, Debug, PartialEq, Eq)]
pub struct SearchOptions {
    /// Match letters only in the case given.
    pub case_sensitive: bool,
    /// Report at most this many matching lines.
    pub max_results: usize,
    /// Skip files larger than this many bytes.
    pub max_file_size: u64,
    /// Report this many lines before and after each matching line.
    pub context_lines: usize,
}

impl SearchOptions {
    /// Options with the given values.
    pub fn new(case_sensitive: bool, max_results: usize, max_file_size: u64, context_lines: usize) -> (r: Self)
        ensures
            r == (SearchOptions { case_sensitive, max_results, max_file_size, context_lines }),
    {
        SearchOptions { case_sensitive, max_results, max_file_size, context_lines }
    }
}

impl Default for SearchOptions {
    /// Case folding on, at most a thousand results, files up to ten mebibytes,
    /// no context lines.
    fn default() -> (r: Self)
        ensures
            r == (SearchOptions {
                case_sensitive: false,
                max_results: DEFAULT_MAX_RESULTS,
                max_file_size: DEFAULT_MAX_FILE_SIZE,
                context_lines: 0,
            }),
    {
        SearchOptions {
            case_sensitive: false,
            max_results: DEFAULT_MAX_RESULTS,
            max_file_size: DEFAULT_MAX_FILE_SIZE,
            context_lines: 0,
        }
    }
}

/// One matching line.
#[derive(Clone, Debug)]
pub struct SearchResult {
    /// The file, relative to the search root.
    pub file: String,
    /// The line's number, counting from one.
    pub line_number: u32,
    /// The line, without its line ending.
    pub content: String,
    /// Up to the requested number of lines before it.
    pub context_before: Vec<String>,
    /// Up to the requested number of lines after it.
    pub context_after: Vec<String>,
}

/// The positions of the lines that the expression matches, in order.
pub open spec fn matching_lines(lines: Seq<Seq<char>>, pattern: Seq<char>, fold: bool) -> Seq<int>
    decreases lines.len(),
{
    if lines.len() == 0 {
        Seq::<int>::empty()
    } else {
        let before = matching_lines(lines.drop_last(), pattern, fold);
        if regex_finds(pattern, fold, lines.last()) {
            before.push(lines.len() - 1)
        } else {
            before
        }
    }
}

/// `res` reports line `i` of `lines`, in the file `file`, with `c` lines of
/// context on each side where the file has them.
pub open spec fn reports(
    res: SearchResult,
    file: Seq<char>,
    lines: Seq<Seq<char>>,
    i: int,
    c: int,
) -> bool {
    &&& 0 <= i < lines.len()
    &&& res.file@ == file
    &&& res.line_number == (i + 1) as u32
    &&& res.content@ == lines[i]
    &&& views(res.context_before@) == lines.subrange(
        if i >= c {
            i - c
        } else {
            0
        },
        i,
    )
    &&& views(res.context_after@) == lines.subrange(
        i + 1,
        if i + 1 + c <= lines.len() {
            i + 1 + c
        } else {
            lines.len() as int
        },
    )
}

/// The smaller of two integers.
pub open spec fn min_of(a: int, b: int) -> int {
    if a <= b {
        a
    } else {
        b
    }
}

/// Each result comes from a file whose path matches the glob `glob`, and is
/// a line that the expression `query` matches.
pub open spec fn all_match(found: Seq<SearchResult>, glob: Seq<char>, query: Seq<char>, fold: bool) -> bool {
    forall|k: int| 0 <= k < found.len() ==> #[trigger] result_matches(found[k], glob, query, fold)
}

/// The result comes from a file whose path matches the glob `glob`, and is a
/// line that the expression `query` matches.
pub open spec fn result_matches(res: SearchResult, glob: Seq<char>, query: Seq<char>, fold: bool) -> bool {
    glob_matches(glob, res.file@) && regex_finds(query, fold, res.content@)
}

/// Every line that a search over `files` reports when nothing bounds it, as
/// (file position, line position) pairs: file by file, and in each file whose
/// path below `root` matches the glob, its matching lines in order.
pub open spec fn all_hits(
    root: Seq<char>,
    glob: Seq<char>,
    query: Seq<char>,
    fold: bool,
    files: Seq<(String, String)>,
) -> Seq<(int, int)>
    decreases files.len(),
{
    if files.len() == 0 {
        Seq::<(int, int)>::empty()
    } else {
        let before = all_hits(root, glob, query, fold, files.drop_last());
        let fi = files.len() - 1;
        if glob_matches(glob, relative_to(root, files.last().0@)) {
            before + matching_lines(lines_of(files.last().1@), query, fold).map_values(
                |li: int| (fi, li),
            )
        } else {
            before
        }
    }
}

/// `res` reports the hit `h` of `files`, with `c` lines of context.
pub open spec fn reports_hit(
    res: SearchResult,
    root: Seq<char>,
    files: Seq<(String, String)>,
    h: (int, int),
    c: int,
) -> bool {
    0 <= h.0 < files.len() && reports(
        res,
        relative_to(root, files[h.0].0@),
        lines_of(files[h.0].1@),
        h.1,
        c,
    )
}

/// The hits of the first files come first among the hits of all of them.
proof fn lemma_all_hits_prefix(
    root: Seq<char>,
    glob: Seq<char>,
    query: Seq<char>,
    fold: bool,
    files: Seq<(String, String)>,
    i: int,
)
    requires
        0 <= i <= files.len(),
    ensures
        all_hits(root, glob, query, fold, files.subrange(0, i)).len() <= all_hits(
            root,
            glob,
            query,
            fold,
            files,
        ).len(),
        forall|k: int|
            0 <= k < all_hits(root, glob, query, fold, files.subrange(0, i)).len() ==> all_hits(
                root,
                glob,
                query,
                fold,
                files.subrange(0, i),
            )[k] == #[trigger] all_hits(root, glob, query, fold, files)[k],
    decreases files.len() - i,
{
    if i < files.len() {
        lemma_all_hits_prefix(root, glob, query, fold, files, i + 1);
        assert(files.subrange(0, i + 1).drop_last() =~= files.subrange(0, i));
    } else {
        assert(files.subrange(0, i) =~= files);
    }
}

/// Searches the files below one root.
pub struct Searcher {
    root: String,
}

/// A search in progress: the compiled expression and glob, and the results so far.
pub struct GrepRun {
    root: String,
    regex: RegexPattern,
    glob: GlobPattern,
    max_results: usize,
    context_lines: usize,
    results: Vec<SearchResult>,
}

impl Searcher {
    /// The root directory, as text.
    pub closed spec fn root_path(&self) -> Seq<char> {
        self.root@
    }

    /// A searcher for the files below `root`.
    pub fn new(root: String) -> (r: Searcher)
        ensures
            r.root_path() == root@,
    {
        Searcher { root }
    }

    /// Starts a search for `query` in the files whose path below the root
    /// matches `glob_pattern`. The expression is compiled first; either
    /// pattern may be rejected.
    pub fn start(&self, query: &str, glob_pattern: &str, options: &SearchOptions) -> (r: Result<
        GrepRun,
        AgentGearError,
    >)
        ensures
            match r {
                Ok(run) => {
                    &&& regex_accepts(query@, !options.case_sensitive)
                    &&& glob_accepts(glob_pattern@)
                    &&& run.wf()
                    &&& run.root_path() == self.root_path()
                    &&& run.query() == query@
                    &&& run.folds_case() == !options.case_sensitive
                    &&& run.glob_pattern() == glob_pattern@
                    &&& run.max_results() == options.max_results
                    &&& run.context_lines() == options.context_lines
                    &&& run.results() == Seq::<SearchResult>::empty()
                },
                Err(AgentGearError::Regex(_)) => !regex_accepts(query@, !options.case_sensitive),
                Err(AgentGearError::Pattern(_)) => regex_accepts(query@, !options.case_sensitive)
                    && glob_depth(glob_pattern@) > MAX_GLOB_DEPTH,
                Err(AgentGearError::Glob(_)) => regex_accepts(query@, !options.case_sensitive)
                    && glob_depth(glob_pattern@) <= MAX_GLOB_DEPTH && !glob_accepts(glob_pattern@),
                Err(_) => false,
            },
    {
        let regex = match RegexPattern::compile(query, !options.case_sensitive) {
            Ok(x) => x,
            Err(msg) => {
                return Err(AgentGearError::Regex(msg));
            },
        };
        if !glob_depth_ok(glob_pattern) {
            return Err(AgentGearError::Pattern(pattern_too_deep()));
        }
        let glob = match GlobPattern::compile(glob_pattern) {
            Ok(g) => g,
            Err(e) => {
                return Err(AgentGearError::Glob(e));
            },
        };
        Ok(
            GrepRun {
                root: self.root.clone(),
                regex,
                glob,
                max_results: options.max_results,
                context_lines: options.context_lines,
                results: Vec::new(),
            },
        )
    }
}

impl Searcher {
    /// Searches the given files, each a path and its content, in order, and
    /// stops once `options.max_results` lines are found.
    pub fn grep_texts(
        &self,
        query: &str,
        glob_pattern: &str,
        options: &SearchOptions,
        files: &Vec<(String, String)>,
    ) -> (r: Result<Vec<SearchResult>, AgentGearError>)
        ensures
            match r {
                Ok(found) => {
                    &&& regex_accepts(query@, !options.case_sensitive)
                    &&& glob_accepts(glob_pattern@)
                    &&& found@.len() == min_of(
                        options.max_results as int,
                        all_hits(
                            self.root_path(),
                            glob_pattern@,
                            query@,
                            !options.case_sensitive,
                            files@,
                        ).len() as int,
                    )
                    &&& forall|k: int|
                        0 <= k < found@.len() ==> reports_hit(
                            #[trigger] found@[k],
                            self.root_path(),
                            files@,
                            all_hits(
                                self.root_path(),
                                glob_pattern@,
                                query@,
                                !options.case_sensitive,
                                files@,
                            )[k],
                            options.context_lines as int,
                        )
                    &&& all_match(found@, glob_pattern@, query@, !options.case_sensitive)
                },
                Err(AgentGearError::Regex(_)) => !regex_accepts(query@, !options.case_sensitive),
                Err(AgentGearError::Pattern(_)) => regex_accepts(query@, !options.case_sensitive)
                    && glob_depth(glob_pattern@) > MAX_GLOB_DEPTH,
                Err(AgentGearError::Glob(_)) => regex_accepts(query@, !options.case_sensitive)
                    && glob_depth(glob_pattern@) <= MAX_GLOB_DEPTH && !glob_accepts(glob_pattern@),
                Err(_) => false,
            },
    {
        let mut run = match self.start(query, glob_pattern, options) {
            Ok(run) => run,
            Err(e) => {
                return Err(e);
            },
        };
        let ghost root = self.root_path();
        let ghost q = query@;
        let ghost f = !options.case_sensitive;
        let ghost g = glob_pattern@;
        let mut i: usize = 0;
        proof {
            assert(files@.subrange(0, 0) =~= Seq::<(String, String)>::empty());
        }
        while i < files.len() && !run.is_done()
            invariant
                i <= files@.len(),
                regex_accepts(q, f),
                glob_accepts(g),
                q == query@,
                g == glob_pattern@,
                f == !options.case_sensitive,
                run.wf(),
                run.root_path() == root,
                run.query() == q,
                run.folds_case() == f,
                run.glob_pattern() == g,
                run.max_results() == options.max_results,
                run.context_lines() == options.context_lines,
                run.results().len() == min_of(
                    options.max_results as int,
                    all_hits(root, g, q, f, files@.subrange(0, i as int)).len() as int,
                ),
                forall|k: int|
                    0 <= k < run.results().len() ==> reports_hit(
                        #[trigger] run.results()[k],
                        root,
                        files@,
                        all_hits(root, g, q, f, files@.subrange(0, i as int))[k],
                        options.context_lines as int,
                    ),
            decreases files@.len() - i,
        {
            let ghost pre = files@.subrange(0, i as int);
            let ghost post = files@.subrange(0, i + 1);
            proof {
                assert(post.drop_last() =~= pre);
                assert(post.last() == files@[i as int]);
                assert(post.len() - 1 == i);
            }
            let ghost before = run.results();
            run.scan(&files[i].0, &files[i].1);
            proof {
                let after = run.results();
                let c = options.context_lines as int;
                let rel = relative_to(root, files@[i as int].0@);
                let lines = lines_of(files@[i as int].1@);
                let hits = matching_lines(lines, q, f);
                let h0 = all_hits(root, g, q, f, pre);
                let h1 = all_hits(root, g, q, f, post);
                assert(before.len() < options.max_results);
                assert(before.len() == h0.len());
                if glob_matches(g, rel) {
                    let mapped = hits.map_values(|li: int| (i as int, li));
                    assert(h1 == h0 + mapped);
                    assert forall|k: int| 0 <= k < after.len() implies reports_hit(
                        #[trigger] after[k],
                        root,
                        files@,
                        h1[k],
                        c,
                    ) by {
                        if k < before.len() {
                            assert(after.subrange(0, before.len() as int)[k] == after[k]);
                            assert(h1[k] == h0[k]);
                            assert(reports_hit(before[k], root, files@, h0[k], c));
                        } else {
                            let j = k - before.len();
                            assert(after[before.len() + j] == after[k]);
                            assert(reports(after[k], rel, lines, hits[j], c));
                            assert(h1[k] == mapped[j]);
                        }
                    }
                } else {
                    assert(h1 == h0);
                }
            }
            i += 1;
        }
        proof {
            if i < files@.len() {
                lemma_all_hits_prefix(root, g, q, f, files@, i as int);
            } else {
                assert(files@.subrange(0, i as int) =~= files@);
            }
        }
        let ghost res = run.results();
        proof {
            assert(run.wf());
            assert(all_match(res, g, q, f)) by {
                assert forall|k: int| 0 <= k < res.len() implies #[trigger] result_matches(
                    res[k],
                    g,
                    q,
                    f,
                ) by {
                    assert(glob_matches(run.glob_pattern(), run.results()[k].file@));
                    assert(regex_finds(run.query(), run.folds_case(), run.results()[k].content@));
                }
            }
        }
        proof {
            let hp = all_hits(root, g, q, f, files@.subrange(0, i as int));
            let ha = all_hits(root, g, q, f, files@);
            assert forall|k: int| 0 <= k < res.len() implies reports_hit(
                #[trigger] res[k],
                root,
                files@,
                ha[k],
                options.context_lines as int,
            ) by {
                assert(reports_hit(res[k], root, files@, hp[k], options.context_lines as int));
                assert(hp[k] == ha[k]);
            }
        }
        let found = run.finish();
        Ok(found)
    }
}

impl GrepRun {
    /// The root directory that reported paths are relative to.
    pub closed spec fn root_path(&self) -> Seq<char> {
        self.root@
    }

    /// The expression searched for.
    pub closed spec fn query(&self) -> Seq<char> {
        self.regex.pattern()
    }

    /// Whether the expression folds case.
    pub closed spec fn folds_case(&self) -> bool {
        self.regex.folds_case()
    }

    /// The glob that a file's path below the root must match.
    pub closed spec fn glob_pattern(&self) -> Seq<char> {
        self.glob.pattern()
    }

    /// The bound on the number of results.
    pub closed spec fn max_results(&self) -> usize {
        self.max_results
    }

    /// The number of context lines reported on each side of a match.
    pub closed spec fn context_lines(&self) -> usize {
        self.context_lines
    }

    /// The results so far, in the order they were found.
    pub closed spec fn results(&self) -> Seq<SearchResult> {
        self.results@
    }

    /// No more results than the bound, each from a file that matches the glob
    /// and each a line that the expression matches.
    pub open spec fn wf(&self) -> bool {
        &&& self.results().len() <= self.max_results()
        &&& forall|k: int|
            0 <= k < self.results().len() ==> glob_matches(
                self.glob_pattern(),
                #[trigger] self.results()[k].file@,
            ) && regex_finds(self.query(), self.folds_case(), self.results()[k].content@)
    }

    /// Whether a walk hands the file at `path` (of `size` bytes) to this
    /// search: it is small enough, and its path below the root matches the
    /// glob. The binary sniff comes after this test.
    pub fn wants_file(&self, path: &str, size: u64, max_file_size: u64) -> (r: bool)
        ensures
            r == (size <= max_file_size && glob_matches(
                self.glob_pattern(),
                relative_to(self.root_path(), path@),
            )),
    {
        if size > max_file_size {
            return false;
        }
        let rel = relative_path(&self.root, path);
        self.glob.is_match(&rel)
    }

    /// Whether the bound on results is reached, so that no file needs reading.
    pub fn is_done(&self) -> (r: bool)
        ensures
            r == (self.results().len() >= self.max_results()),
    {
        self.results.len() >= self.max_results
    }

    /// Searches the file at `path`, whose content is `text`: where its path
    /// below the root matches the glob, its matching lines are added in order,
    /// as many as the bound on results still allows.
    pub fn scan(&mut self, path: &str, text: &str)
        requires
            old(self).wf(),
        ensures
            final(self).wf(),
            final(self).root_path() == old(self).root_path(),
            final(self).query() == old(self).query(),
            final(self).folds_case() == old(self).folds_case(),
            final(self).glob_pattern() == old(self).glob_pattern(),
            final(self).max_results() == old(self).max_results(),
            final(self).context_lines() == old(self).context_lines(),
            ({
                let rel = relative_to(old(self).root_path(), path@);
                let lines = lines_of(text@);
                let hits = matching_lines(lines, old(self).query(), old(self).folds_case());
                let before = old(self).results();
                let after = final(self).results();
                let k = min_of(hits.len() as int, old(self).max_results() - before.len());
                if glob_matches(old(self).glob_pattern(), rel) {
                    &&& after.len() == before.len() + k
                    &&& after.subrange(0, before.len() as int) == before
                    &&& forall|j: int|
                        0 <= j < k ==> reports(
                            #[trigger] after[before.len() + j],
                            rel,
                            lines,
                            hits[j],
                            old(self).context_lines() as int,
                        )
                } else {
                    after == before
                }
            }),
    {
        let rel = relative_path(&self.root, path);
        if !self.glob.is_match(&rel) {
            return ;
        }
        let lines = split_lines(text);
        let ghost ls = views(lines@);
        let ghost before = self.results@;
        let ghost q = self.regex.pattern();
        let ghost f = self.regex.folds_case();
        let n = lines.len();
        let c = self.context_lines;
        let mut i: usize = 0;
        let mut found: Ghost<Seq<int>> = Ghost(Seq::empty());
        proof {
            assert(ls.subrange(0, 0) =~= Seq::<Seq<char>>::empty());
        }
        while i < n && self.results.len() < self.max_results
            invariant
                n == lines@.len() == ls.len(),
                ls == views(lines@),
                ls == lines_of(text@),
                rel@ == relative_to(self.root@, path@),
                glob_matches(self.glob.pattern(), rel@),
                q == self.regex.pattern(),
                f == self.regex.folds_case(),
                c == self.context_lines,
                i <= n,
                self.wf(),
                self.root == old(self).root,
                self.regex == old(self).regex,
                self.glob == old(self).glob,
                self.max_results == old(self).max_results,
                self.context_lines == old(self).context_lines,
                before == old(self).results@,
                found@ == matching_lines(ls.subrange(0, i as int), q, f),
                self.results@.len() == before.len() + found@.len(),
                self.results@.subrange(0, before.len() as int) == before,
                forall|j: int|
                    0 <= j < found@.len() ==> reports(
                        #[trigger] self.results@[before.len() + j],
                        rel@,
                        ls,
                        found@[j],
                        c as int,
                    ),
            decreases n - i,
        {
            proof {
                assert(ls.subrange(0, i + 1).drop_last() =~= ls.subrange(0, i as int));
                assert(ls.subrange(0, i + 1).last() == ls[i as int]);
                assert(lines@[i as int]@ == ls[i as int]);
            }
            if self.regex.is_match(lines[i].as_str()) {
                let lo = if i >= c {
                    i - c
                } else {
                    0
                };
                let hi = if c < n - i {
                    i + 1 + c
                } else {
                    n
                };
                let mut ctx_before: Vec<String> = Vec::new();
                let mut j: usize = lo;
                while j < i
                    invariant
                        lo <= j <= i < n == lines@.len() == ls.len(),
                        ls == views(lines@),
                        views(ctx_before@) == ls.subrange(lo as int, j as int),
                    decreases i - j,
                {
                    let ghost pre = ctx_before@;
                    ctx_before.push(lines[j].clone());
                    proof {
                        assert(views(ctx_before@) =~= views(pre).push(lines@[j as int]@));
                        assert(ls.subrange(lo as int, j + 1) =~= ls.subrange(lo as int, j as int).push(
                            ls[j as int],
                        ));
                    }
                    j += 1;
                }
                let mut ctx_after: Vec<String> = Vec::new();
                let mut j: usize = i + 1;
                while j < hi
                    invariant
                        i + 1 <= j <= hi <= n == lines@.len() == ls.len(),
                        ls == views(lines@),
                        views(ctx_after@) == ls.subrange(i + 1, j as int),
                    decreases hi - j,
                {
                    let ghost pre = ctx_after@;
                    ctx_after.push(lines[j].clone());
                    proof {
                        assert(views(ctx_after@) =~= views(pre).push(lines@[j as int]@));
                        assert(ls.subrange(i + 1, j + 1) =~= ls.subrange(i + 1, j as int).push(
                            ls[j as int],
                        ));
                    }
                    j += 1;
                }
                let res = SearchResult {
                    file: rel.clone(),
                    line_number: #[verifier::truncate] ((i + 1) as u32),
                    content: lines[i].clone(),
                    context_before: ctx_before,
                    context_after: ctx_after,
                };
                let ghost old_results = self.results@;
                let ghost prior = *self;
                let ghost r = res;
                proof {
                    assert(r.file@ == rel@);
                    assert(r.content@ == ls[i as int]);
                    assert(regex_finds(q, f, r.content@));
                }
                self.results.push(res);
                proof {
                    assert(self.results@[old_results.len() as int] == r);
                    found@ = found@.push(i as int);
                    assert(self.results@.subrange(0, before.len() as int) =~= old_results.subrange(
                        0,
                        before.len() as int,
                    ));
                    assert forall|k: int|
                        0 <= k < self.results().len() implies glob_matches(
                        self.glob_pattern(),
                        #[trigger] self.results()[k].file@,
                    ) && regex_finds(self.query(), self.folds_case(), self.results()[k].content@) by {
                        if k < old_results.len() {
                            assert(self.results@[k] == old_results[k]);
                            assert(prior.wf());
                            assert(prior.results()[k] == old_results[k]);
                            assert(glob_matches(prior.glob_pattern(), prior.results()[k].file@));
                        }
                    }
                }
            }
            i += 1;
        }
        proof {
            let hits = matching_lines(ls, q, f);
            let room = self.max_results - before.len();
            // Either every line was read, or the bound was reached.
            if i == n {
                assert(ls.subrange(0, n as int) =~= ls);
            } else {
                assert(found@.len() == room);
                lemma_matching_prefix(ls, q, f, i as int);
            }
        }
    }

    /// The results found, in order.
    pub fn finish(self) -> (r: Vec<SearchResult>)
        ensures
            r@ == self.results(),
    {
        self.results
    }
}

/// The lines matched among the first `i` are the first matched lines overall.
proof fn lemma_matching_prefix(lines: Seq<Seq<char>>, q: Seq<char>, f: bool, i: int)
    requires
        0 <= i <= lines.len(),
    ensures
        matching_lines(lines.subrange(0, i), q, f).len() <= matching_lines(lines, q, f).len(),
        forall|j: int|
            0 <= j < matching_lines(lines.subrange(0, i), q, f).len() ==> matching_lines(
                lines.subrange(0, i),
                q,
                f,
            )[j] == #[trigger] matching_lines(lines, q, f)[j],
    decreases lines.len() - i,
{
    if i < lines.len() {
        lemma_matching_prefix(lines, q, f, i + 1);
        assert(lines.subrange(0, i + 1).drop_last() =~= lines.subrange(0, i));
    } else {
        assert(lines.subrange(0, i) =~= lines);
    }
}

} // verus!
