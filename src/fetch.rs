//! The computable parts of the fetch coordinator: cache keys, the encoding of
//! registry queries, the names of temporary directories, the download plan of
//! a batch, and the breadth-first walk over a package's dependencies.
use crate::dependency::{contains_string, PackageDependency};
use crate::parallel::{DownloadTask, RetryConfig};
use crate::text::{trim_white, trim_whitespace};
use std::collections::VecDeque;
use std::path::Path;
use base64::Engine;
use vstd::prelude::*;
use vstd::string::*;

verus! {

/// The cache key of a package's file list: `files:<package path>`.
pub fn files_cache_key(pkg_path: &str) -> (r: String)
    ensures
        r@ == "files:"@ + pkg_path@,
{
    String::from_str("files:").concat(pkg_path)
}

/// The registry path of a file of a package: `<package path>/<file>`.
pub fn package_file_path(pkg_path: &str, file: &str) -> (r: String)
    ensures
        r@ == pkg_path@ + "/"@ + file@,
{
    String::from_str(pkg_path).concat("/").concat(file)
}

/// The cache key of a file's content: `file:<file path>`.
pub fn file_cache_key(file_path: &str) -> (r: String)
    ensures
        r@ == "file:"@ + file_path@,
{
    String::from_str("file:").concat(file_path)
}

/// The standard base64 encoding (with padding) of the UTF-8 bytes of a text.
pub uninterp spec fn base64_of(text: Seq<char>) -> Seq<char>;

/// The bytes that a standard base64 text decodes to, or `None` when it is not
/// valid base64.
pub uninterp spec fn base64_decoded(text: Seq<char>) -> Option<Seq<u8>>;

/// The text that `String::from_utf8_lossy` makes of some bytes.
pub uninterp spec fn utf8_lossy_of(bytes: Seq<u8>) -> Seq<char>;

/// Relies on `base64::engine::general_purpose::STANDARD.encode`.
#[verifier::external_body]
fn base64_encode(text: &str) -> (r: String)
    ensures
        r@ == base64_of(text@),
{
    base64::engine::general_purpose::STANDARD.encode(text.as_bytes())
}

/// Relies on `base64::engine::general_purpose::STANDARD.decode`; the error is
/// the crate's message.
#[verifier::external_body]
fn base64_decode(text: &str) -> (r: Result<Vec<u8>, String>)
    ensures
        r is Ok <==> base64_decoded(text@) is Some,
        r matches Ok(b) ==> base64_decoded(text@) == Some(b@),
{
    base64::engine::general_purpose::STANDARD.decode(text).map_err(|e| e.to_string())
}

/// Relies on `String::from_utf8_lossy`.
#[verifier::external_body]
fn utf8_lossy(bytes: &Vec<u8>) -> (r: String)
    ensures
        r@ == utf8_lossy_of(bytes@),
{
    String::from_utf8_lossy(bytes).into_owned()
}

/// The payload of a registry query for `path`: its base64 encoding.
pub fn encode_query_path(path: &str) -> (r: String)
    ensures
        r@ == base64_of(path@),
{
    base64_encode(path)
}

/// The text carried by a query response's data field: the data decoded from
/// base64 and read as UTF-8 (invalid sequences replaced); an error exactly
/// when the data is not valid base64.
pub fn decode_response_text(data: &str) -> (r: Result<String, String>)
    ensures
        r is Ok <==> base64_decoded(data@) is Some,
        r matches Ok(t) ==> t@ == utf8_lossy_of(base64_decoded(data@)->Some_0),
{
    match base64_decode(data) {
        Ok(bytes) => Ok(utf8_lossy(&bytes)),
        Err(e) => Err(e),
    }
}

/// The listing split at line feeds: the lines ended so far, and the line
/// under way.
pub open spec fn listing_scan(text: Seq<char>) -> (Seq<Seq<char>>, Seq<char>)
    decreases text.len(),
{
    if text.len() == 0 {
        (Seq::empty(), Seq::empty())
    } else {
        let (done, current) = listing_scan(text.drop_last());
        if text.last() == '\n' {
            (keep_line(done, current), Seq::empty())
        } else {
            (done, current.push(text.last()))
        }
    }
}

/// `done` with `line` added, trimmed, unless it is blank.
pub open spec fn keep_line(done: Seq<Seq<char>>, line: Seq<char>) -> Seq<Seq<char>> {
    if trim_white(line).len() > 0 {
        done.push(trim_white(line))
    } else {
        done
    }
}

/// The file names of a package listing: its lines, trimmed, blank ones left out.
pub open spec fn file_listing(text: Seq<char>) -> Seq<Seq<char>> {
    keep_line(listing_scan(text).0, listing_scan(text).1)
}

/// The file names of a package listing, one per line: each line trimmed of
/// white space, blank lines left out, in order.
pub fn parse_file_list(text: &str) -> (r: Vec<String>)
    ensures
        r@.map_values(|s: String| s@) == file_listing(text@),
{
    let len = text.unicode_len();
    let mut out: Vec<String> = Vec::new();
    let mut start: usize = 0;
    let mut k: usize = 0;
    while k < len
        invariant
            len == text@.len(),
            0 <= start <= k <= len,
            listing_scan(text@.take(k as int)) == (out@.map_values(|s: String| s@), text@.subrange(start as int, k as int)),
        decreases len - k,
    {
        let ghost before = out@.map_values(|s: String| s@);
        assert(text@.take(k + 1).drop_last() =~= text@.take(k as int));
        assert(text@.take(k + 1).last() == text@[k as int]);
        if text.get_char(k) == '\n' {
            let line = trim_whitespace(text.substring_char(start, k));
            if line.as_str().unicode_len() > 0 {
                out.push(line);
                assert(out@.map_values(|s: String| s@) =~= before.push(line@));
            }
            start = k + 1;
            assert(text@.subrange(start as int, k + 1) =~= Seq::<char>::empty());
        } else {
            assert(text@.subrange(start as int, k + 1) =~= text@.subrange(start as int, k as int).push(text@[k as int]));
        }
        k += 1;
    }
    let ghost before = out@.map_values(|s: String| s@);
    let line = trim_whitespace(text.substring_char(start, len));
    if line.as_str().unicode_len() > 0 {
        out.push(line);
        assert(out@.map_values(|s: String| s@) =~= before.push(line@));
    }
    assert(text@.take(len as int) =~= text@);
    out
}

/// The verdict on a downloaded package from the packages found in its
/// directory: valid when at least one source file was found.
pub fn validate_extracted(packages: &Vec<PackageDependency>) -> (r: Result<(), String>)
    ensures
        r is Ok <==> packages@.len() > 0,
        r matches Err(m) ==> m@ == "No .gno files found"@,
{
    if packages.len() == 0 {
        Err(String::from_str("No .gno files found"))
    } else {
        Ok(())
    }
}

/// `name` ends with `suffix`.
pub open spec fn ends_with(name: Seq<char>, suffix: Seq<char>) -> bool {
    suffix.len() <= name.len() && name.subrange(name.len() - suffix.len(), name.len() as int) == suffix
}

/// Whether a file name has the source extension `gno`: a stem of at least one
/// character, then `.gno`.
pub fn is_source_file_name(name: &str) -> (r: bool)
    ensures
        r == (name@.len() > 4 && ends_with(name@, ".gno"@)),
{
    let suffix = ".gno";
    proof {
        reveal_strlit(".gno");
    }
    let slen = suffix.unicode_len();
    let nlen = name.unicode_len();
    if nlen <= slen {
        return false;
    }
    let tail = String::from_str(name.substring_char(nlen - slen, nlen));
    let want = String::from_str(suffix);
    tail == want
}

/// Relies on `u128`'s `to_string`: its decimal digits.
#[verifier::external_body]
fn decimal_digits(n: u128) -> (r: String)
    ensures
        r@ == decimal(n as nat),
{
    n.to_string()
}

/// The decimal digit of a number below ten.
pub open spec fn digit(d: nat) -> char {
    (d + 48) as char
}

/// The decimal representation of `n`, without leading zeros.
pub open spec fn decimal(n: nat) -> Seq<char>
    decreases n,
{
    if n < 10 {
        seq![digit(n)]
    } else {
        decimal(n / 10).push(digit(n % 10))
    }
}

/// The name of the temporary sibling directory of a download:
/// `<target name>_tmp_<stamp>`, with `package` when the target has no name.
pub fn temp_dir_name(target_name: Option<&str>, stamp: u128) -> (r: String)
    ensures
        r@ == match target_name {
            Some(n) => n@,
            None => "package"@,
        } + "_tmp_"@ + decimal(stamp as nat),
{
    let base = match target_name {
        Some(n) => String::from_str(n),
        None => String::from_str("package"),
    };
    let digits = decimal_digits(stamp);
    base.concat("_tmp_").concat(digits.as_str())
}

/// Relies on `Path::join`: the path `rel` joined onto `base`, read back as
/// text. Its separators are the platform's, so nothing is stated of it.
#[verifier::external_body]
fn join_path(base: &str, rel: &str) -> String {
    Path::new(base).join(rel).to_string_lossy().into_owned()
}

/// The download tasks of a batch: one per package, in the order given, into
/// `target_dir` joined with the package path (by the platform's rules), with
/// earlier packages at higher priority (the count of packages from it to the
/// end, kept to its low byte).
pub fn plan_downloads(packages: &Vec<String>, target_dir: &str, retry_config: RetryConfig) -> (r: Vec<
    DownloadTask,
>)
    ensures
        r@.len() == packages@.len(),
        forall|i: int|
            0 <= i < r@.len() ==> {
                &&& (#[trigger] r@[i]).package_id@ == packages@[i]@
                &&& r@[i].package_path@ == packages@[i]@
                &&& r@[i].priority as int == (packages@.len() - i) % 256
                &&& r@[i].retry_config == retry_config
            },
{
    let n = packages.len();
    let mut tasks: Vec<DownloadTask> = Vec::new();
    let mut i: usize = 0;
    while i < n
        invariant
            n == packages@.len(),
            0 <= i <= n,
            tasks@.len() == i,
            forall|k: int|
                0 <= k < i ==> {
                    &&& (#[trigger] tasks@[k]).package_id@ == packages@[k]@
                    &&& tasks@[k].package_path@ == packages@[k]@
                    &&& tasks@[k].priority as int == (packages@.len() - k) % 256
                    &&& tasks@[k].retry_config == retry_config
                },
        decreases n - i,
    {
        let package = &packages[i];
        let priority = ((n - i) % 256) as u8;
        tasks.push(
            DownloadTask {
                package_id: package.clone(),
                package_path: package.clone(),
                target_dir: join_path(target_dir, package.as_str()),
                priority,
                retry_config,
            },
        );
        i += 1;
    }
    tasks
}

/// The queue after the imports are offered to it in order: each import not yet
/// analysed and not yet queued joins the back.
pub open spec fn enqueue_imports(queue: Seq<Seq<char>>, analyzed: Seq<Seq<char>>, imports: Seq<Seq<char>>) -> Seq<Seq<char>>
    decreases imports.len(),
{
    if imports.len() == 0 {
        queue
    } else {
        let q = enqueue_imports(queue, analyzed, imports.drop_last());
        let x = imports.last();
        if analyzed.contains(x) || q.contains(x) {
            q
        } else {
            q.push(x)
        }
    }
}

/// The next package to analyse and the queue after it: queued packages
/// already analysed are dropped from the front until one that is not.
pub open spec fn next_to_analyze(queue: Seq<Seq<char>>, analyzed: Seq<Seq<char>>) -> (Option<Seq<char>>, Seq<Seq<char>>)
    decreases queue.len(),
{
    if queue.len() == 0 {
        (None, queue)
    } else if analyzed.contains(queue[0]) {
        next_to_analyze(queue.drop_first(), analyzed)
    } else {
        (Some(queue[0]), queue.drop_first())
    }
}

/// The next package to analyse has not been analysed yet.
pub proof fn lemma_next_not_analyzed(queue: Seq<Seq<char>>, analyzed: Seq<Seq<char>>)
    ensures
        next_to_analyze(queue, analyzed).0 matches Some(p) ==> !analyzed.contains(p),
    decreases queue.len(),
{
    if queue.len() > 0 && analyzed.contains(queue[0]) {
        lemma_next_not_analyzed(queue.drop_first(), analyzed);
    }
}

/// A breadth-first walk over the dependencies of a root package: which
/// packages wait to be analysed, which have been, and what each one was found
/// to be.
pub struct DependencyWalk {
    to_analyze: VecDeque<String>,
    analyzed: Vec<String>,
    found: Vec<(String, String)>,
}

/// Whether `items` holds a string equal to `x`.
fn queue_contains(items: &VecDeque<String>, x: &String) -> (r: bool)
    ensures
        r == items@.map_values(|s: String| s@).contains(x@),
{
    let ghost views = items@.map_values(|s: String| s@);
    let mut k: usize = 0;
    while k < items.len()
        invariant
            views == items@.map_values(|s: String| s@),
            0 <= k <= items@.len(),
            forall|j: int| 0 <= j < k ==> views[j] != x@,
        decreases items@.len() - k,
    {
        if items[k] == *x {
            assert(views[k as int] == x@);
            return true;
        }
        k += 1;
    }
    false
}

impl DependencyWalk {
    /// The packages waiting to be analysed, front first.
    pub closed spec fn queue(&self) -> Seq<Seq<char>> {
        self.to_analyze@.map_values(|s: String| s@)
    }

    /// The packages analysed so far, in order.
    pub closed spec fn analyzed(&self) -> Seq<Seq<char>> {
        self.analyzed@.map_values(|s: String| s@)
    }

    /// Each analysed package path with the name it was found to have.
    pub closed spec fn found(&self) -> Seq<(Seq<char>, Seq<char>)> {
        self.found@.map_values(|p: (String, String)| (p.0@, p.1@))
    }

    /// A walk that starts at `root`.
    pub fn new(root: &str) -> (w: DependencyWalk)
        ensures
            w.queue() == seq![root@],
            w.analyzed() == Seq::<Seq<char>>::empty(),
            w.found() == Seq::<(Seq<char>, Seq<char>)>::empty(),
    {
        let mut to_analyze = VecDeque::new();
        to_analyze.push_back(String::from_str(root));
        let w = DependencyWalk { to_analyze, analyzed: Vec::new(), found: Vec::new() };
        assert(w.queue() =~= seq![root@]);
        assert(w.analyzed() =~= Seq::<Seq<char>>::empty());
        assert(w.found() =~= Seq::<(Seq<char>, Seq<char>)>::empty());
        w
    }

    /// Takes the next package to analyse, dropping queued packages that were
    /// analysed meanwhile; `None` when none is left.
    pub fn next_package(&mut self) -> (r: Option<String>)
        ensures
            match r {
                Some(p) => next_to_analyze(old(self).queue(), old(self).analyzed()).0 == Some(p@),
                None => next_to_analyze(old(self).queue(), old(self).analyzed()).0 is None,
            },
            final(self).queue() == next_to_analyze(old(self).queue(), old(self).analyzed()).1,
            final(self).analyzed() == old(self).analyzed(),
            final(self).found() == old(self).found(),
            r matches Some(p) ==> !old(self).analyzed().contains(p@),
    {
        proof {
            lemma_next_not_analyzed(old(self).queue(), old(self).analyzed());
        }
        loop
            invariant
                next_to_analyze(self.queue(), self.analyzed()) == next_to_analyze(old(self).queue(), old(self).analyzed()),
                self.analyzed() == old(self).analyzed(),
                self.found() == old(self).found(),
            decreases self.to_analyze@.len(),
        {
            let ghost before = self.queue();
            match self.to_analyze.pop_front() {
                None => {
                    return None;
                },
                Some(p) => {
                    assert(self.queue() =~= before.drop_first());
                    assert(before[0] == p@);
                    if !contains_string(&self.analyzed, &p) {
                        return Some(p);
                    }
                },
            }
        }
    }

    /// Records that `pkg_path` was analysed as `dep`: its imports not yet
    /// analysed nor queued join the queue, in order, and the package joins the
    /// analysed ones with the name found for it.
    pub fn record(&mut self, pkg_path: String, dep: &PackageDependency)
        ensures
            final(self).queue() == enqueue_imports(old(self).queue(), old(self).analyzed(), dep.import_views()),
            final(self).analyzed() == old(self).analyzed().push(pkg_path@),
            final(self).found() == old(self).found().push((pkg_path@, dep.name@)),
    {
        let ghost views = dep.import_views();
        let mut k: usize = 0;
        while k < dep.imports.len()
            invariant
                0 <= k <= dep.imports@.len(),
                views == dep.import_views(),
                self.queue() == enqueue_imports(old(self).queue(), old(self).analyzed(), views.take(k as int)),
                self.analyzed() == old(self).analyzed(),
                self.found() == old(self).found(),
            decreases dep.imports@.len() - k,
        {
            let import = &dep.imports[k];
            assert(views.take(k + 1).drop_last() =~= views.take(k as int));
            assert(views.take(k + 1).last() == import@);
            if !contains_string(&self.analyzed, import) && !queue_contains(&self.to_analyze, import) {
                let ghost before = self.queue();
                self.to_analyze.push_back(import.clone());
                assert(self.queue() =~= before.push(import@));
            }
            k += 1;
        }
        assert(views.take(k as int) =~= views);
        let ghost a = self.analyzed();
        let ghost f = self.found();
        let name = dep.name.clone();
        self.analyzed.push(pkg_path.clone());
        self.found.push((pkg_path, name));
        assert(self.analyzed() =~= a.push(pkg_path@));
        assert(self.found() =~= f.push((pkg_path@, dep.name@)));
    }

    /// Each analysed package path with the name found for it, in the order of analysis.
    pub fn into_found(self) -> (r: Vec<(String, String)>)
        ensures
            r@.map_values(|p: (String, String)| (p.0@, p.1@)) == self.found(),
    {
        self.found
    }
}

} // verus!
