//! Packages, their imports, and the resolver that reads them out of source
//! text with tree-sitter's Go grammar and orders them for deployment.
use crate::graph::{
    build_dependency_graph, imports_package, in_dependency_order, lists_each_once,
    package_dependents, package_names, ResolutionStrategy, TopoSort,
};
use crate::text::{starts_with, trim_quote_chars, trim_quotes};
use tree_sitter::{Parser, Query, QueryCursor, StreamingIterator};
use DependencyError::{ParseError, QueryCreation, Utf8Error};
use vstd::prelude::*;
use vstd::string::*;

verus! {

/// What can go wrong while extracting or ordering dependencies.
#[derive(Debug)]
pub enum DependencyError {
    LanguageSetup(String),
    QueryCreation(String),
    ParseError,
    Utf8Error(String),
    PackageNotFound(String),
    CircularDependency,
    IoError(String),
}

/// A package and the registry imports of its files.
#[derive(Debug, Clone)]
pub struct PackageDependency {
    pub name: String,
    pub imports: Vec<String>,
}

impl PackageDependency {
    /// The imports as character sequences.
    pub open spec fn import_views(&self) -> Seq<Seq<char>> {
        self.imports@.map_values(|s: String| s@)
    }
}

/// How many times `x` occurs in `ss`.
pub open spec fn occurrences(ss: Seq<Seq<char>>, x: Seq<char>) -> nat
    decreases ss.len(),
{
    if ss.len() == 0 {
        0
    } else {
        occurrences(ss.drop_last(), x) + if ss.last() == x {
            1nat
        } else {
            0nat
        }
    }
}

/// The query that captures the package clause's name.
pub const PACKAGE_QUERY: &'static str = "(package_clause (package_identifier) @package)";

/// The query that captures every import path, with its optional alias, in
/// both the grouped and the single form of an import declaration.
pub const IMPORT_QUERY: &'static str = "
(import_declaration
    (import_spec_list
    (import_spec
        name: (package_identifier)? @alias
        path: (interpreted_string_literal) @import)))

(import_declaration
    (import_spec
    name: (package_identifier)? @alias
    path: (interpreted_string_literal) @import))";

/// Only imports under this prefix are registry packages.
pub const GNO_LAND_PREFIX: &'static str = "gno.land/";

/// The capture that holds a package name.
pub const PACKAGE_CAPTURE: &'static str = "package";

/// The capture that holds an import path.
pub const IMPORT_CAPTURE: &'static str = "import";

#[verifier::external_type_specification]
#[verifier::external_body]
pub struct ExParser(Parser);

#[verifier::external_type_specification]
#[verifier::external_body]
pub struct ExQueryCursor(QueryCursor);

/// What running a query over a source text yields with tree-sitter's Go
/// grammar: every capture of every match, in order, as (capture name,
/// captured text); `None` when the grammar cannot be loaded, the query does
/// not compile, the text cannot be parsed, or a capture is not valid UTF-8.
pub uninterp spec fn go_captures(query: Seq<char>, source: Seq<char>) -> Option<Seq<(Seq<char>, Seq<char>)>>;

/// Relies on `tree_sitter::Parser::new`: a parser with no language yet.
#[verifier::external_body]
fn new_parser() -> Parser {
    Parser::new()
}

/// Relies on `tree_sitter::QueryCursor::new`.
#[verifier::external_body]
fn new_query_cursor() -> QueryCursor {
    QueryCursor::new()
}

/// Relies on `Parser::set_language` with `tree_sitter_go::LANGUAGE`,
/// `Query::new`, `Parser::parse` (no timeout, no cancellation flag),
/// `QueryCursor::matches` and `Node::utf8_text`. The parser and the cursor are
/// reused buffers: the grammar is set on each call, so the captures depend on
/// the query and the source alone. A grammar that cannot be loaded leaves the
/// parser without a language, and `parse` then gives `ParseError`; the other
/// errors carry the library's message.
#[verifier::external_body]
fn go_query_captures(parser: &mut Parser, cursor: &mut QueryCursor, query: &str, source: &str) -> (r:
    Result<Vec<(String, String)>, DependencyError>)
    ensures
        r is Ok <==> go_captures(query@, source@) is Some,
        r matches Ok(c) ==> capture_views(c@) == go_captures(query@, source@)->Some_0,
{
    let language = tree_sitter_go::LANGUAGE.into();
    let _ = parser.set_language(&language);
    let compiled = Query::new(&language, query).map_err(|e| QueryCreation(e.to_string()))?;
    let tree = parser.parse(source, None).ok_or(ParseError)?;
    let mut found = Vec::new();
    let mut matches = cursor.matches(&compiled, tree.root_node(), source.as_bytes());
    while let Some(m) = matches.next() {
        for c in m.captures {
            let text = c.node.utf8_text(source.as_bytes()).map_err(|e| Utf8Error(e.to_string()));
            found.push((compiled.capture_names()[c.index as usize].to_string(), text?.to_string()));
        }
    }
    Ok(found)
}

/// Captures as (name, text) character sequences.
pub open spec fn capture_views(caps: Seq<(String, String)>) -> Seq<(Seq<char>, Seq<char>)> {
    caps.map_values(|c: (String, String)| (c.0@, c.1@))
}

/// The text of the last capture labelled `label`, or the empty text.
pub open spec fn last_capture(caps: Seq<(Seq<char>, Seq<char>)>, label: Seq<char>) -> Seq<char>
    decreases caps.len(),
{
    if caps.len() == 0 {
        Seq::empty()
    } else if caps.last().0 == label {
        caps.last().1
    } else {
        last_capture(caps.drop_last(), label)
    }
}

/// The registry import paths among the captures, in capture order.
pub open spec fn registry_imports(caps: Seq<(Seq<char>, Seq<char>)>) -> Seq<Seq<char>>
    decreases caps.len(),
{
    if caps.len() == 0 {
        Seq::empty()
    } else {
        let rest = registry_imports(caps.drop_last());
        let c = caps.last();
        if c.0 == IMPORT_CAPTURE@ && starts_with(trim_quotes(c.1), GNO_LAND_PREFIX@) {
            rest.push(trim_quotes(c.1))
        } else {
            rest
        }
    }
}

/// The two sequences hold the same members.
pub open spec fn same_members(a: Seq<Seq<char>>, b: Seq<Seq<char>>) -> bool {
    forall|x: Seq<char>| a.contains(x) <==> b.contains(x)
}

/// Whether `s` is a registry path, that is begins with the registry prefix.
pub fn has_registry_prefix(s: &str) -> (r: bool)
    ensures
        r == starts_with(s@, GNO_LAND_PREFIX@),
{
    let prefix = GNO_LAND_PREFIX;
    let plen = prefix.unicode_len();
    let slen = s.unicode_len();
    if slen < plen {
        return false;
    }
    let mut k: usize = 0;
    while k < plen
        invariant
            plen == prefix@.len(),
            prefix@ == GNO_LAND_PREFIX@,
            slen == s@.len(),
            plen <= slen,
            0 <= k <= plen,
            forall|j: int| 0 <= j < k ==> s@[j] == prefix@[j],
        decreases plen - k,
    {
        if s.get_char(k) != prefix.get_char(k) {
            assert(s@.subrange(0, plen as int)[k as int] != prefix@[k as int]);
            return false;
        }
        k += 1;
    }
    assert(s@.subrange(0, plen as int) =~= prefix@);
    true
}

/// The package name among the captures: the text of the last capture named
/// `package`, or the empty string when there is none.
pub fn package_name_from_captures(captures: &Vec<(String, String)>) -> (r: String)
    ensures
        r@ == last_capture(capture_views(captures@), PACKAGE_CAPTURE@),
{
    let label = String::from_str(PACKAGE_CAPTURE);
    let ghost cv = capture_views(captures@);
    let mut name = String::new();
    let mut k: usize = 0;
    while k < captures.len()
        invariant
            label@ == PACKAGE_CAPTURE@,
            cv == capture_views(captures@),
            0 <= k <= captures@.len(),
            name@ == last_capture(cv.take(k as int), PACKAGE_CAPTURE@),
        decreases captures@.len() - k,
    {
        assert(cv.take(k + 1).drop_last() =~= cv.take(k as int));
        if captures[k].0 == label {
            name = captures[k].1.clone();
        }
        k += 1;
    }
    assert(cv.take(k as int) =~= cv);
    name
}

/// Whether `items` holds a string equal to `x`.
pub(crate) fn contains_string(items: &Vec<String>, x: &String) -> (r: bool)
    ensures
        r == items@.map_values(|s: String| s@).contains(x@),
{
    let ghost views = items@.map_values(|s: String| s@);
    let mut k: usize = 0;
    while k < items.len()
        invariant
            views == items@.map_values(|s: String| s@),
            0 <= k <= items@.len(),
            forall|j: int| 0 <= j < k ==> views[j] != x@,
        decreases items@.len() - k,
    {
        if items[k] == *x {
            assert(views[k as int] == x@);
            return true;
        }
        k += 1;
    }
    false
}

/// The registry imports among the captures: each capture named `import`,
/// stripped of its quotes, kept when it begins with the registry prefix, and
/// listed once.
pub fn imports_from_captures(captures: &Vec<(String, String)>) -> (r: Vec<String>)
    ensures
        r@.map_values(|s: String| s@).no_duplicates(),
        same_members(r@.map_values(|s: String| s@), registry_imports(capture_views(captures@))),
{
    let label = String::from_str(IMPORT_CAPTURE);
    let ghost cv = capture_views(captures@);
    let mut out: Vec<String> = Vec::new();
    let mut k: usize = 0;
    while k < captures.len()
        invariant
            label@ == IMPORT_CAPTURE@,
            cv == capture_views(captures@),
            0 <= k <= captures@.len(),
            out@.map_values(|s: String| s@).no_duplicates(),
            same_members(out@.map_values(|s: String| s@), registry_imports(cv.take(k as int))),
        decreases captures@.len() - k,
    {
        let ghost before = out@.map_values(|s: String| s@);
        assert(cv.take(k + 1).drop_last() =~= cv.take(k as int));
        assert(cv.take(k + 1).last() == cv[k as int]);
        if captures[k].0 == label {
            let path = trim_quote_chars(captures[k].1.as_str());
            if has_registry_prefix(path.as_str()) {
                if !contains_string(&out, &path) {
                    out.push(path);
                    assert(out@.map_values(|s: String| s@) =~= before.push(path@));
                }
            }
        }
        proof {
            let prev = registry_imports(cv.take(k as int));
            let next = registry_imports(cv.take(k + 1));
            let now = out@.map_values(|s: String| s@);
            assert forall|x: Seq<char>| now.contains(x) <==> next.contains(x) by {
                if next.len() == prev.len() + 1 {
                    assert(next =~= prev.push(next.last()));
                    if now.contains(x) && !before.contains(x) {
                        assert(x == next.last());
                        assert(next[prev.len() as int] == x);
                    }
                    if next.contains(x) && !prev.contains(x) {
                        let i = choose|i: int| 0 <= i < next.len() && next[i] == x;
                        if i < prev.len() {
                            assert(prev[i] == x);
                        }
                        assert(x == next.last());
                        if !now.contains(x) {
                            assert(now.len() == before.len() + 1 || before.contains(x));
                            if now.len() == before.len() + 1 {
                                assert(now[before.len() as int] == x);
                            }
                        }
                    }
                    if prev.contains(x) {
                        let i = choose|i: int| 0 <= i < prev.len() && prev[i] == x;
                        assert(next[i] == x);
                    }
                    if before.contains(x) && now.len() == before.len() + 1 {
                        let i = choose|i: int| 0 <= i < before.len() && before[i] == x;
                        assert(now[i] == x);
                    }
                    if now.contains(x) && now.len() == before.len() + 1 && x != next.last() {
                        let i = choose|i: int| 0 <= i < now.len() && now[i] == x;
                        assert(before[i] == x);
                    }
                } else {
                    assert(next == prev);
                    assert(now == before);
                }
            }
        }
        k += 1;
    }
    assert(cv.take(k as int) =~= cv);
    out
}

/// Every registry import begins with the registry prefix.
pub proof fn lemma_registry_imports_prefixed(caps: Seq<(Seq<char>, Seq<char>)>)
    ensures
        forall|i: int|
            0 <= i < registry_imports(caps).len() ==> starts_with(
                #[trigger] registry_imports(caps)[i],
                GNO_LAND_PREFIX@,
            ),
    decreases caps.len(),
{
    if caps.len() > 0 {
        lemma_registry_imports_prefixed(caps.drop_last());
        let rest = registry_imports(caps.drop_last());
        let all = registry_imports(caps);
        assert forall|i: int| 0 <= i < all.len() implies starts_with(#[trigger] all[i], GNO_LAND_PREFIX@) by {
            if i < rest.len() {
                assert(all[i] == rest[i]);
            }
        }
    }
}

/// An alias beside an import path, a blank `_` name included, or any other
/// capture that is not an import path, leaves the registry imports as they
/// are: `import "p"`, `import a "p"` and `import _ "p"` give the same imports.
pub proof fn lemma_alias_captures_ignored(caps: Seq<(Seq<char>, Seq<char>)>, i: int, c: (Seq<char>, Seq<char>))
    requires
        0 <= i <= caps.len(),
        c.0 != IMPORT_CAPTURE@,
    ensures
        registry_imports(caps.insert(i, c)) == registry_imports(caps),
    decreases caps.len(),
{
    if i == caps.len() {
        assert(caps.insert(i, c).drop_last() =~= caps);
    } else {
        lemma_alias_captures_ignored(caps.drop_last(), i, c);
        assert(caps.insert(i, c).drop_last() =~= caps.drop_last().insert(i, c));
        assert(caps.insert(i, c).last() == caps.last());
    }
}

/// `a` followed by the members of `b` that are not already there, in order.
pub open spec fn union_in_order(a: Seq<Seq<char>>, b: Seq<Seq<char>>) -> Seq<Seq<char>>
    decreases b.len(),
{
    if b.len() == 0 {
        a
    } else {
        let u = union_in_order(a, b.drop_last());
        if u.contains(b.last()) {
            u
        } else {
            u.push(b.last())
        }
    }
}

/// Adds the imports of one file of package `name` to `packages`: they are
/// merged into the imports of the package of that name when there is one
/// (each new import once, after the old ones), and make a new package at the
/// end otherwise.
pub fn merge_package(packages: &mut Vec<PackageDependency>, name: String, imports: Vec<String>)
    requires
        package_names(old(packages)@).no_duplicates(),
    ensures
        package_names(final(packages)@).no_duplicates(),
        forall|i: int|
            0 <= i < old(packages)@.len() && #[trigger] old(packages)@[i].name@ == name@ ==> {
                &&& final(packages)@.len() == old(packages)@.len()
                &&& forall|j: int| 0 <= j < old(packages)@.len() && j != i ==> #[trigger] final(packages)@[j] == old(packages)@[j]
                &&& final(packages)@[i].name == old(packages)@[i].name
                &&& final(packages)@[i].import_views() == union_in_order(
                    old(packages)@[i].import_views(),
                    imports@.map_values(|s: String| s@),
                )
            },
        (forall|i: int| 0 <= i < old(packages)@.len() ==> #[trigger] old(packages)@[i].name@ != name@)
            ==> final(packages)@ == old(packages)@.push(PackageDependency { name, imports }),
{
    let n = packages.len();
    let mut k: usize = 0;
    while k < n && !(packages[k].name == name)
        invariant
            n == packages@.len(),
            0 <= k <= n,
            forall|j: int| 0 <= j < k ==> #[trigger] packages@[j].name@ != name@,
        decreases n - k,
    {
        k += 1;
    }
    if k == n {
        let ghost before = packages@;
        packages.push(PackageDependency { name, imports });
        proof {
            let names = package_names(packages@);
            assert forall|a: int, b: int| 0 <= a < names.len() && 0 <= b < names.len() && a != b implies names[a] != names[b] by {
                if a < n && b < n {
                    assert(package_names(before)[a] != package_names(before)[b]);
                }
            }
        }
        return;
    }
    let ghost old_views = packages@[k as int].import_views();
    let ghost new_views = imports@.map_values(|s: String| s@);
    let mut merged: Vec<String> = Vec::new();
    let mut t: usize = 0;
    while t < packages[k].imports.len()
        invariant
            n == packages@.len(),
            k < n,
            old_views == packages@[k as int].import_views(),
            0 <= t <= old_views.len(),
            merged@.map_values(|s: String| s@) == old_views.take(t as int),
        decreases old_views.len() - t,
    {
        let ghost before = merged@.map_values(|s: String| s@);
        let item = packages[k].imports[t].clone();
        assert(item@ == old_views[t as int]);
        merged.push(item);
        assert(merged@.map_values(|s: String| s@) =~= before.push(old_views[t as int]));
        assert(old_views.take(t + 1) =~= old_views.take(t as int).push(old_views[t as int]));
        t += 1;
    }
    assert(old_views.take(t as int) =~= old_views);
    let mut u: usize = 0;
    while u < imports.len()
        invariant
            new_views == imports@.map_values(|s: String| s@),
            0 <= u <= imports@.len(),
            merged@.map_values(|s: String| s@) == union_in_order(old_views, new_views.take(u as int)),
        decreases imports@.len() - u,
    {
        assert(new_views.take(u + 1).drop_last() =~= new_views.take(u as int));
        assert(new_views.take(u + 1).last() == imports@[u as int]@);
        if !contains_string(&merged, &imports[u]) {
            let ghost before = merged@.map_values(|s: String| s@);
            merged.push(imports[u].clone());
            assert(merged@.map_values(|s: String| s@) =~= before.push(imports@[u as int]@));
        }
        u += 1;
    }
    assert(new_views.take(u as int) =~= new_views);
    let ghost before = packages@;
    let kept_name = packages[k].name.clone();
    packages.set(k, PackageDependency { name: kept_name, imports: merged });
    proof {
        let names = package_names(packages@);
        assert forall|a: int, b: int| 0 <= a < names.len() && 0 <= b < names.len() && a != b implies names[a] != names[b] by {
            assert(package_names(before)[a] != package_names(before)[b]);
        }
        assert forall|i: int| 0 <= i < before.len() && #[trigger] before[i].name@ == name@ implies i == k by {
            if i != k {
                assert(package_names(before)[i] != package_names(before)[k as int]);
            }
        }
    }
}

/// Packages can be ranked so that every package ranks above the packages it imports.
pub open spec fn packages_ranked_by(pkgs: Seq<PackageDependency>, rank: spec_fn(Seq<char>) -> nat) -> bool {
    forall|a: Seq<char>, b: Seq<char>| #[trigger] imports_package(pkgs, b, a) ==> rank(a) < rank(b)
}

/// No cycle runs through the imports among `pkgs`.
pub open spec fn packages_acyclic(pkgs: Seq<PackageDependency>) -> bool {
    exists|rank: spec_fn(Seq<char>) -> nat| #[trigger] packages_ranked_by(pkgs, rank)
}

/// Extracts imports from source text and orders packages for deployment.
pub struct DependencyResolver<S: ResolutionStrategy> {
    parser: Parser,
    cursor: QueryCursor,
    /// The strategy that turns a dependency graph into an order.
    strategy: S,
}

/// The error of `new` when trying `query` on an empty text failed with `e`:
/// a query that does not compile is named, and any other failure means the
/// grammar could not be loaded (an empty text always parses with it).
fn setup_error(e: DependencyError, which: &str) -> (r: DependencyError)
    ensures
        r is LanguageSetup || r is QueryCreation,
{
    match e {
        DependencyError::QueryCreation(m) => DependencyError::QueryCreation(
            String::from_str(which).concat(m.as_str()),
        ),
        _ => DependencyError::LanguageSetup(String::from_str("the Go grammar could not be loaded")),
    }
}

impl DependencyResolver<TopoSort> {
    /// A resolver for the Go grammar with the topological-sort strategy. It
    /// succeeds exactly when both queries run on an empty text, that is when
    /// the grammar loads and both queries compile.
    pub fn new() -> (r: Result<Self, DependencyError>)
        ensures
            r is Ok <==> (go_captures(PACKAGE_QUERY@, ""@) is Some && go_captures(IMPORT_QUERY@, ""@) is Some),
            r matches Err(e) ==> (e is LanguageSetup || e is QueryCreation),
    {
        let mut parser = new_parser();
        let mut cursor = new_query_cursor();
        match go_query_captures(&mut parser, &mut cursor, PACKAGE_QUERY, "") {
            Ok(_) => {},
            Err(e) => {
                return Err(setup_error(e, "package query: "));
            },
        }
        match go_query_captures(&mut parser, &mut cursor, IMPORT_QUERY, "") {
            Ok(_) => {},
            Err(e) => {
                return Err(setup_error(e, "import query: "));
            },
        }
        Ok(DependencyResolver { parser, cursor, strategy: TopoSort })
    }
}

impl<S: ResolutionStrategy> DependencyResolver<S> {
    /// The strategy in use.
    pub closed spec fn strategy_spec(&self) -> S {
        self.strategy
    }

    /// Extracts the package name and the registry imports of one source text.
    /// It succeeds exactly when both queries run on the text. The name is then
    /// the text of the last package clause (empty when there is none), and the
    /// imports are the registry paths among the captured import paths, each
    /// once; a path outside the registry never appears.
    pub fn extract_dependencies(&mut self, source_code: &str) -> (r: Result<
        (String, Vec<String>),
        DependencyError,
    >)
        ensures
            final(self).strategy_spec() == old(self).strategy_spec(),
            r is Ok <==> (go_captures(PACKAGE_QUERY@, source_code@) is Some && go_captures(
                IMPORT_QUERY@,
                source_code@,
            ) is Some),
            r matches Ok((name, imports)) ==> {
                &&& name@ == last_capture(
                    go_captures(PACKAGE_QUERY@, source_code@)->Some_0,
                    PACKAGE_CAPTURE@,
                )
                &&& same_members(
                    imports@.map_values(|s: String| s@),
                    registry_imports(go_captures(IMPORT_QUERY@, source_code@)->Some_0),
                )
                &&& imports@.map_values(|s: String| s@).no_duplicates()
                &&& forall|i: int|
                    0 <= i < imports@.len() ==> starts_with(#[trigger] imports@[i]@, GNO_LAND_PREFIX@)
            },
    {
        let package_caps = match go_query_captures(&mut self.parser, &mut self.cursor, PACKAGE_QUERY, source_code) {
            Ok(c) => c,
            Err(e) => {
                return Err(e);
            },
        };
        let name = package_name_from_captures(&package_caps);
        let import_caps = match go_query_captures(&mut self.parser, &mut self.cursor, IMPORT_QUERY, source_code) {
            Ok(c) => c,
            Err(e) => {
                return Err(e);
            },
        };
        let imports = imports_from_captures(&import_caps);
        proof {
            let ic = capture_views(import_caps@);
            lemma_registry_imports_prefixed(ic);
            assert forall|i: int| 0 <= i < imports@.len() implies starts_with(#[trigger] imports@[i]@, GNO_LAND_PREFIX@) by {
                let views = imports@.map_values(|s: String| s@);
                assert(views[i] == imports@[i]@);
                assert(views.contains(imports@[i]@));
                let j = choose|j: int| 0 <= j < registry_imports(ic).len() && registry_imports(ic)[j] == imports@[i]@;
            }
        }
        Ok((name, imports))
    }

    /// Orders `packages` for deployment with the resolver's strategy: the
    /// strategy's order of the package names and of each package's
    /// dependents, so equal inputs give equal orders, and imports naming no
    /// package of the input play no part. Every package is listed once; when
    /// the imports among them form no cycle, each package comes after every
    /// package of the input that it imports.
    pub fn generate_deployment_order(&self, packages: &Vec<PackageDependency>) -> (order: Vec<String>)
        requires
            package_names(packages@).no_duplicates(),
        ensures
            order@.map_values(|s: String| s@) == self.strategy_spec().ordering(
                package_names(packages@),
                package_dependents(packages@),
            ),
            lists_each_once(order@.map_values(|s: String| s@), package_names(packages@)),
            packages_acyclic(packages@) ==> forall|p: int, q: int|
                0 <= p < order@.len() && 0 <= q < order@.len() && #[trigger] imports_package(
                    packages@,
                    order@[q]@,
                    order@[p]@,
                ) ==> p < q,
    {
        let graph = build_dependency_graph(packages);
        let order = self.strategy.resolve(&graph);
        proof {
            let views = order@.map_values(|s: String| s@);
            if packages_acyclic(packages@) {
                let rank = choose|rank: spec_fn(Seq<char>) -> nat| #[trigger] packages_ranked_by(packages@, rank);
                assert forall|a: Seq<char>, b: Seq<char>| #[trigger] graph.required_by(a, b) implies rank(a) < rank(b) by {
                    assert(imports_package(packages@, b, a));
                }
                assert(graph.ranked_by(rank));
                assert(in_dependency_order(views, graph));
                assert forall|p: int, q: int|
                    0 <= p < order@.len() && 0 <= q < order@.len() && #[trigger] imports_package(
                        packages@,
                        order@[q]@,
                        order@[p]@,
                    ) implies p < q by {
                    assert(views[p] == order@[p]@);
                    assert(views[q] == order@[q]@);
                    assert(graph.required_by(views[p], views[q]));
                }
            }
        }
        order
    }

    /// The same resolver with another resolution strategy.
    pub fn with_strategy<T: ResolutionStrategy>(self, strategy: T) -> (r: DependencyResolver<T>)
        ensures
            r.strategy_spec() == strategy,
    {
        DependencyResolver { parser: self.parser, cursor: self.cursor, strategy }
    }
}

} // verus!
