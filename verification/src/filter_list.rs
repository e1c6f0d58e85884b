//! The filter-list manager: the registry of installed lists, their metadata,
//! and the live domain tree built from the enabled ones.
//!
//! Downloading, reading and writing files stay with the caller; the manager
//! decides what is fetched, where it is stored, and what the metadata and the
//! tree become.
use vstd::prelude::*;
use vstd::multiset::Multiset;
use vstd::string::StringExecFns;
use vstd::pervasive::VecAdditionalExecFns;
use crate::abp::{after_list_lines, file_rules, insert_list_lines, law_list_file_adds_its_rules, rule_line_count};
use crate::text::{alphanumeric, chars_of, is_alphanumeric, push_char};
use crate::tree::{guessed_third_party, query, DomainTree, Entry};

verus! {

/// Persistent metadata for a single filter list.
#[derive(Debug)]
pub struct FilterListMetadata {
    /// User-facing name and identifier (also the stem of the list's file name).
    pub name: String,
    /// Canonical URL to fetch from.
    pub url: String,
    /// Last ETag received from the server (for conditional requests).
    pub etag: Option<String>,
    /// Last `Last-Modified` header received from the server.
    pub last_modified: Option<String>,
    /// Unix time (seconds) of the last successful download.
    pub last_fetched_secs: Option<u64>,
    /// Number of rules currently loaded from this list.
    pub rule_count: usize,
    /// Whether this list contributes rules to the active tree.
    pub enabled: bool,
}

/// Metadata as plain values.
pub struct MetaView {
    pub name: Seq<char>,
    pub url: Seq<char>,
    pub etag: Option<Seq<char>>,
    pub last_modified: Option<Seq<char>>,
    pub last_fetched_secs: Option<u64>,
    pub rule_count: usize,
    pub enabled: bool,
}

pub open spec fn opt_str(o: Option<String>) -> Option<Seq<char>> {
    match o {
        Some(s) => Some(s@),
        None => None,
    }
}

impl View for FilterListMetadata {
    type V = MetaView;

    open spec fn view(&self) -> MetaView {
        MetaView {
            name: self.name@,
            url: self.url@,
            etag: opt_str(self.etag),
            last_modified: opt_str(self.last_modified),
            last_fetched_secs: self.last_fetched_secs,
            rule_count: self.rule_count,
            enabled: self.enabled,
        }
    }
}

/// The metadata of a freshly installed list: enabled, never fetched, no rules.
pub open spec fn new_meta(name: Seq<char>, url: Seq<char>) -> MetaView {
    MetaView {
        name,
        url,
        etag: None,
        last_modified: None,
        last_fetched_secs: None,
        rule_count: 0,
        enabled: true,
    }
}

impl FilterListMetadata {
    pub fn new(name: &str, url: &str) -> (m: Self)
        ensures
            m@ == new_meta(name@, url@),
    {
        FilterListMetadata {
            name: String::from_str(name),
            url: String::from_str(url),
            etag: None,
            last_modified: None,
            last_fetched_secs: None,
            rule_count: 0,
            enabled: true,
        }
    }
}

/// Why a request on the registry failed.
#[derive(Debug)]
pub enum ListError {
    /// No list has this name.
    NotFound(String),
    /// A list with this name is already installed.
    AlreadyExists(String),
}

/// What the caller needs for a conditional download of a list.
pub struct FetchRequest {
    pub url: String,
    /// Sent as `If-None-Match` when present.
    pub etag: Option<String>,
    /// Sent as `If-Modified-Since` when present.
    pub last_modified: Option<String>,
}

/// The registry and the live tree.
pub struct FilterListManager {
    /// The live domain tree, built from the enabled lists.
    tree: DomainTree,
    /// Metadata of every installed list, each name once.
    lists: Vec<FilterListMetadata>,
    /// Directory where list files, the metadata and the tree cache are kept.
    storage_dir: String,
}

/// The manager as plain values.
pub struct ManagerView {
    pub tree: Multiset<Entry>,
    pub lists: Seq<MetaView>,
    pub storage_dir: Seq<char>,
}

impl View for FilterListManager {
    type V = ManagerView;

    closed spec fn view(&self) -> ManagerView {
        ManagerView {
            tree: self.tree@,
            lists: self.lists@.map_values(|m: FilterListMetadata| m@),
            storage_dir: self.storage_dir@,
        }
    }
}

// ── The registry as values ───────────────────────────────────────────────────

/// Index of the list named `name`, or -1.
pub open spec fn find_list(ls: Seq<MetaView>, name: Seq<char>) -> int
    decreases ls.len(),
{
    if ls.len() == 0 {
        -1
    } else if ls.last().name == name {
        ls.len() - 1
    } else {
        find_list(ls.drop_last(), name)
    }
}

pub proof fn lemma_find_list(ls: Seq<MetaView>, name: Seq<char>)
    ensures
        -1 <= find_list(ls, name) < ls.len(),
        find_list(ls, name) >= 0 ==> ls[find_list(ls, name)].name == name,
        find_list(ls, name) == -1 <==> forall|j: int| 0 <= j < ls.len() ==> ls[j].name != name,
    decreases ls.len(),
{
    if ls.len() > 0 && ls.last().name != name {
        lemma_find_list(ls.drop_last(), name);
        assert forall|j: int| 0 <= j < ls.len() - 1 implies ls[j] == ls.drop_last()[j] by {}
    }
}

/// No two lists share a name.
pub open spec fn unique_names(ls: Seq<MetaView>) -> bool {
    forall|i: int, j: int| 0 <= i < j < ls.len() ==> ls[i].name != ls[j].name
}

pub proof fn lemma_find_unique(ls: Seq<MetaView>, i: int)
    requires
        unique_names(ls),
        0 <= i < ls.len(),
    ensures
        find_list(ls, ls[i].name) == i,
{
    lemma_find_list(ls, ls[i].name);
    let f = find_list(ls, ls[i].name);
    if f != i {
        assert(ls[f].name == ls[i].name);
    }
}

/// The list named `name`, if installed.
pub open spec fn list_info(ls: Seq<MetaView>, name: Seq<char>) -> Option<MetaView> {
    if find_list(ls, name) >= 0 {
        Some(ls[find_list(ls, name)])
    } else {
        None
    }
}

/// The names of the enabled lists, in registry order.
pub open spec fn enabled_names(ls: Seq<MetaView>) -> Seq<Seq<char>>
    decreases ls.len(),
{
    if ls.len() == 0 {
        Seq::empty()
    } else if ls.last().enabled {
        enabled_names(ls.drop_last()).push(ls.last().name)
    } else {
        enabled_names(ls.drop_last())
    }
}

/// `ls` after loading one stored metadata entry: it replaces the entry of
/// the same name, or is appended.
pub open spec fn load_one(ls: Seq<MetaView>, m: MetaView) -> Seq<MetaView> {
    let i = find_list(ls, m.name);
    if i >= 0 {
        ls.update(i, m)
    } else {
        ls.push(m)
    }
}

pub open spec fn load_all(ls: Seq<MetaView>, ms: Seq<MetaView>) -> Seq<MetaView>
    decreases ms.len(),
{
    if ms.len() == 0 {
        ls
    } else {
        load_one(load_all(ls, ms.drop_last()), ms.last())
    }
}

/// The metadata after a download: new validators unless the server answered
/// "not modified", the fetch time and the rule count.
pub open spec fn fetched_meta(
    m: MetaView,
    not_modified: bool,
    etag: Option<Seq<char>>,
    last_modified: Option<Seq<char>>,
    now_secs: u64,
    rule_count: usize,
) -> MetaView {
    MetaView {
        etag: if not_modified { m.etag } else { etag },
        last_modified: if not_modified { m.last_modified } else { last_modified },
        last_fetched_secs: Some(now_secs),
        rule_count,
        ..m
    }
}

// ── Paths ────────────────────────────────────────────────────────────────────

/// `file` inside `dir`, as `Path::join` forms it for a relative `file`.
pub open spec fn join_path(dir: Seq<char>, file: Seq<char>) -> Seq<char> {
    if dir.len() == 0 {
        file
    } else if dir.last() == '/' {
        dir + file
    } else {
        dir.push('/') + file
    }
}

/// A character of a stored list's file name: alphanumerics, `-`, `_` and
/// `.` are kept, anything else becomes `_`.
pub open spec fn safe_char(c: char) -> char {
    if alphanumeric(c) || c == '-' || c == '_' || c == '.' {
        c
    } else {
        '_'
    }
}

/// The file name a list's text is stored under.
pub open spec fn list_file_name(name: Seq<char>) -> Seq<char> {
    name.map_values(|c: char| safe_char(c)) + ".txt"@
}

fn join_path_exec(dir: &String, file: &str) -> (r: String)
    ensures
        r@ == join_path(dir@, file@),
{
    let d = chars_of(dir.as_str());
    let mut out = String::new();
    out.append(dir.as_str());
    if d.len() > 0 && d[d.len() - 1] != '/' {
        push_char(&mut out, '/');
    }
    out.append(file);
    assert(out@ =~= join_path(dir@, file@));
    out
}

/// `v` with its lists replaced by `ls`.
pub open spec fn with_lists(v: ManagerView, ls: Seq<MetaView>) -> ManagerView {
    ManagerView { lists: ls, ..v }
}

/// `v` with its tree replaced by `t`.
pub open spec fn with_tree(v: ManagerView, t: Multiset<Entry>) -> ManagerView {
    ManagerView { tree: t, ..v }
}

/// `m` with its enabled flag set.
pub open spec fn with_enabled(m: MetaView, enabled: bool) -> MetaView {
    MetaView { enabled, ..m }
}

/// `m` with its rule count set.
pub open spec fn with_rule_count(m: MetaView, rule_count: usize) -> MetaView {
    MetaView { rule_count, ..m }
}

/// `ls` with the list named `name` changed by `f`; unchanged when there is
/// no such list.
pub open spec fn update_named(ls: Seq<MetaView>, name: Seq<char>, f: spec_fn(MetaView) -> MetaView) -> Seq<MetaView> {
    let i = find_list(ls, name);
    if i >= 0 {
        ls.update(i, f(ls[i]))
    } else {
        ls
    }
}

proof fn lemma_unique_push(ls: Seq<MetaView>, m: MetaView)
    requires
        unique_names(ls),
        find_list(ls, m.name) == -1,
    ensures
        unique_names(ls.push(m)),
{
    lemma_find_list(ls, m.name);
    assert forall|i: int, j: int| 0 <= i < j < ls.push(m).len() implies ls.push(m)[i].name != ls.push(m)[j].name by {
        if j == ls.len() {
            assert(ls.push(m)[i] == ls[i]);
        }
    }
}

proof fn lemma_unique_update(ls: Seq<MetaView>, i: int, m: MetaView)
    requires
        unique_names(ls),
        0 <= i < ls.len(),
        m.name == ls[i].name,
    ensures
        unique_names(ls.update(i, m)),
{
    assert forall|a: int, b: int| 0 <= a < b < ls.len() implies ls.update(i, m)[a].name != ls.update(i, m)[b].name by {
        assert(ls.update(i, m)[a].name == ls[a].name);
        assert(ls.update(i, m)[b].name == ls[b].name);
    }
}

proof fn lemma_unique_remove(ls: Seq<MetaView>, i: int)
    requires
        unique_names(ls),
        0 <= i < ls.len(),
    ensures
        unique_names(ls.remove(i)),
{
    let r = ls.remove(i);
    assert forall|a: int, b: int| 0 <= a < b < r.len() implies r[a].name != r[b].name by {
        let a2 = if a < i { a } else { a + 1 };
        let b2 = if b < i { b } else { b + 1 };
        assert(r[a] == ls[a2]);
        assert(r[b] == ls[b2]);
    }
}

/// The percentage reported after `done` of `total` steps, scaled to 90.
pub open spec fn progress_of(done: int, total: int) -> int {
    done * 90 / total
}

/// The progress percentage after `done` of `total` steps of a batch, on a
/// scale that ends at 90 (the last tenth is left for saving).
pub fn progress_percent(done: usize, total: usize) -> (r: i32)
    requires
        done <= total,
        0 < total,
        total <= usize::MAX / 90,
    ensures
        r == progress_of(done as int, total as int),
        0 <= r <= 90,
{
    let y = done * 90;
    let x = y / total;
    assert(x <= 90) by (nonlinear_arith)
        requires
            x as int == y as int / total as int,
            y as int == done as int * 90,
            done <= total,
            0 < total,
    ;
    x as i32
}

/// Whether an HTTP status means "not modified" (the stored copy is current).
pub fn is_not_modified(status: u16) -> (r: bool)
    ensures
        r == (status == 304),
{
    status == 304
}

// ── The manager ──────────────────────────────────────────────────────────────

impl FilterListManager {
    #[verifier::type_invariant]
    spec fn well_formed(self) -> bool {
        unique_names(self.lists@.map_values(|m: FilterListMetadata| m@))
    }

    /// A manager for `storage_dir` with no lists and an empty tree.
    pub fn new(storage_dir: &str) -> (m: Self)
        ensures
            m@.storage_dir == storage_dir@,
            m@.lists.len() == 0,
            m@.tree == Multiset::<Entry>::empty(),
    {
        let m = FilterListManager { tree: DomainTree::new(), lists: Vec::new(), storage_dir: String::from_str(storage_dir) };
        assert(m@.lists =~= Seq::<MetaView>::empty());
        m
    }

    /// The live tree.
    pub fn tree(&self) -> (t: &DomainTree)
        ensures
            t@ == self@.tree,
    {
        &self.tree
    }

    /// Where the metadata of all lists is stored.
    pub fn metadata_path(&self) -> (r: String)
        ensures
            r@ == join_path(self@.storage_dir, "lists.json"@),
    {
        join_path_exec(&self.storage_dir, "lists.json")
    }

    /// Where the built tree is cached.
    pub fn tree_cache_path(&self) -> (r: String)
        ensures
            r@ == join_path(self@.storage_dir, "domain_tree.cache"@),
    {
        join_path_exec(&self.storage_dir, "domain_tree.cache")
    }

    /// Where the text of the list `name` is stored.
    pub fn list_file_path(&self, name: &str) -> (r: String)
        ensures
            r@ == join_path(self@.storage_dir, list_file_name(name@)),
    {
        let ghost nv = name@;
        let mut safe = String::new();
        for c in it: name.chars()
            invariant
                it.seq() == nv,
                safe@ == nv.take(it.index() as int).map_values(|c: char| safe_char(c)),
        {
            let ghost before = safe@;
            let ghost k = it.index();
            let ok = is_alphanumeric(c) || c == '-' || c == '_' || c == '.';
            if ok {
                push_char(&mut safe, c);
            } else {
                push_char(&mut safe, '_');
            }
            assert(nv.take(k + 1) =~= nv.take(k as int).push(c));
            assert(safe@ =~= nv.take(k + 1).map_values(|c: char| safe_char(c)));
        }
        assert(nv.take(nv.len() as int) =~= nv);
        safe.append(".txt");
        join_path_exec(&self.storage_dir, safe.as_str())
    }

    /// The position of the list named `name`.
    fn position(&self, name: &str) -> (r: Option<usize>)
        ensures
            match r {
                Some(i) => i as int == find_list(self@.lists, name@) && i < self@.lists.len(),
                None => find_list(self@.lists, name@) == -1,
            },
    {
        proof {
            use_type_invariant(self);
            lemma_find_list(self@.lists, name@);
        }
        let ghost ls = self@.lists;
        let key = String::from_str(name);
        let n = self.lists.len();
        let mut i: usize = 0;
        while i < n
            invariant
                n == ls.len(),
                ls == self@.lists,
                key@ == name@,
                unique_names(ls),
                i <= n,
                forall|j: int| 0 <= j < i ==> ls[j].name != name@,
            decreases n - i,
        {
            assert(ls[i as int].name == self.lists@[i as int].name@);
            if self.lists[i].name == key {
                proof {
                    lemma_find_unique(ls, i as int);
                }
                return Some(i);
            }
            i = i + 1;
        }
        None
    }

    /// Whether a list named `name` is installed.
    pub fn has_list(&self, name: &str) -> (r: bool)
        ensures
            r == (find_list(self@.lists, name@) >= 0),
    {
        self.position(name).is_some()
    }

    /// The metadata of the list named `name`.
    pub fn get_list_info(&self, name: &str) -> (r: Option<&FilterListMetadata>)
        ensures
            match r {
                Some(m) => list_info(self@.lists, name@) == Some(m@),
                None => list_info(self@.lists, name@) is None,
            },
    {
        match self.position(name) {
            Some(i) => {
                assert(self@.lists[i as int] == self.lists@[i as int]@);
                Some(&self.lists[i])
            },
            None => None,
        }
    }

    /// The metadata of every installed list, in registry order.
    pub fn get_all_lists(&self) -> (r: Vec<&FilterListMetadata>)
        ensures
            r@.len() == self@.lists.len(),
            forall|i: int| 0 <= i < r@.len() ==> (#[trigger] r@[i])@ == self@.lists[i],
    {
        let n = self.lists.len();
        let mut out: Vec<&FilterListMetadata> = Vec::new();
        let mut i: usize = 0;
        while i < n
            invariant
                n == self@.lists.len(),
                i <= n,
                out@.len() == i,
                forall|j: int| 0 <= j < i ==> (#[trigger] out@[j])@ == self@.lists[j],
            decreases n - i,
        {
            assert(self@.lists[i as int] == self.lists@[i as int]@);
            out.push(&self.lists[i]);
            i = i + 1;
        }
        out
    }

    /// The names of the enabled lists, in registry order.
    pub fn enabled_list_names(&self) -> (r: Vec<String>)
        ensures
            r.deep_view() == enabled_names(self@.lists),
    {
        let ghost ls = self@.lists;
        let n = self.lists.len();
        let mut out: Vec<String> = Vec::new();
        let mut i: usize = 0;
        while i < n
            invariant
                n == ls.len(),
                ls == self@.lists,
                i <= n,
                out.deep_view() =~= enabled_names(ls.take(i as int)),
            decreases n - i,
        {
            assert(ls.take(i + 1).drop_last() =~= ls.take(i as int));
            assert(ls.take(i + 1).last() == self.lists@[i as int]@);
            if self.lists[i].enabled {
                let ghost before = out.deep_view();
                out.push(self.lists[i].name.clone());
                assert(out.deep_view() =~= before.push(ls[i as int].name));
            }
            i = i + 1;
        }
        assert(ls.take(n as int) =~= ls);
        out
    }

    /// The names of all installed lists, in registry order.
    pub fn list_names(&self) -> (r: Vec<String>)
        ensures
            r.deep_view() == self@.lists.map_values(|m: MetaView| m.name),
    {
        let ghost ls = self@.lists;
        let n = self.lists.len();
        let mut out: Vec<String> = Vec::new();
        let mut i: usize = 0;
        while i < n
            invariant
                n == ls.len(),
                ls == self@.lists,
                i <= n,
                out.deep_view() =~= ls.take(i as int).map_values(|m: MetaView| m.name),
            decreases n - i,
        {
            let ghost before = out.deep_view();
            out.push(self.lists[i].name.clone());
            assert(out.deep_view() =~= before.push(ls[i as int].name));
            assert(ls.take(i + 1).map_values(|m: MetaView| m.name) =~= ls.take(i as int).map_values(
                |m: MetaView| m.name,
            ).push(ls[i as int].name));
            i = i + 1;
        }
        assert(ls.take(n as int) =~= ls);
        out
    }
    /// Installs a list under a new name: its metadata is added, enabled and
    /// never fetched. A name already in use is refused.
    pub fn register_list(&mut self, name: &str, url: &str) -> (r: Result<(), ListError>)
        ensures
            find_list(old(self)@.lists, name@) >= 0 ==> final(self)@ == old(self)@ && (r matches Err(
                ListError::AlreadyExists(n),
            ) && n@ == name@),
            find_list(old(self)@.lists, name@) == -1 ==> r is Ok && final(self)@ == with_lists(
                old(self)@,
                old(self)@.lists.push(new_meta(name@, url@)),
            ),
    {
        proof {
            use_type_invariant(&*self);
        }
        if self.has_list(name) {
            return Err(ListError::AlreadyExists(String::from_str(name)));
        }
        let ghost v0 = self@;
        proof {
            lemma_find_list(v0.lists, name@);
        }
        let m = FilterListMetadata::new(name, url);
        let mut ls: Vec<FilterListMetadata> = Vec::new();
        std::mem::swap(&mut ls, &mut self.lists);
        ls.push(m);
        proof {
            assert(ls@.map_values(|m: FilterListMetadata| m@) =~= v0.lists.push(new_meta(name@, url@)));
            lemma_unique_push(v0.lists, new_meta(name@, url@));
        }
        self.lists = ls;
        assert(self@ =~= with_lists(v0, v0.lists.push(new_meta(name@, url@))));
        Ok(())
    }

    /// Forgets the list named `name`.
    pub fn remove_list(&mut self, name: &str) -> (r: Result<(), ListError>)
        ensures
            find_list(old(self)@.lists, name@) == -1 ==> final(self)@ == old(self)@ && (r matches Err(
                ListError::NotFound(n),
            ) && n@ == name@),
            find_list(old(self)@.lists, name@) >= 0 ==> r is Ok && final(self)@ == with_lists(
                old(self)@,
                old(self)@.lists.remove(find_list(old(self)@.lists, name@)),
            ),
    {
        proof {
            use_type_invariant(&*self);
        }
        match self.position(name) {
            None => Err(ListError::NotFound(String::from_str(name))),
            Some(i) => {
                let ghost v0 = self@;
                let mut ls: Vec<FilterListMetadata> = Vec::new();
                std::mem::swap(&mut ls, &mut self.lists);
                ls.remove(i);
                proof {
                    assert(ls@.map_values(|m: FilterListMetadata| m@) =~= v0.lists.remove(i as int));
                    lemma_unique_remove(v0.lists, i as int);
                }
                self.lists = ls;
                assert(self@ =~= with_lists(v0, v0.lists.remove(i as int)));
                Ok(())
            },
        }
    }

    /// Sets whether the list named `name` is enabled. Returns whether that
    /// changed anything (the tree then needs a rebuild).
    pub fn set_list_enabled(&mut self, name: &str, enabled: bool) -> (r: Result<bool, ListError>)
        ensures
            find_list(old(self)@.lists, name@) == -1 ==> final(self)@ == old(self)@ && (r matches Err(
                ListError::NotFound(n),
            ) && n@ == name@),
            find_list(old(self)@.lists, name@) >= 0 ==> ({
                let i = find_list(old(self)@.lists, name@);
                let was = old(self)@.lists[i].enabled;
                &&& r == Ok::<bool, ListError>(was != enabled)
                &&& final(self)@ == with_lists(old(self)@, old(self)@.lists.update(i, with_enabled(old(self)@.lists[i], enabled)))
            }),
    {
        proof {
            use_type_invariant(&*self);
        }
        match self.position(name) {
            None => Err(ListError::NotFound(String::from_str(name))),
            Some(i) => {
                let ghost v0 = self@;
                assert(v0.lists[i as int] == self.lists@[i as int]@);
                if self.lists[i].enabled == enabled {
                    assert(v0.lists.update(i as int, with_enabled(v0.lists[i as int], enabled)) =~= v0.lists);
                    assert(self@ =~= with_lists(v0, v0.lists));
                    return Ok(false);
                }
                let mut ls: Vec<FilterListMetadata> = Vec::new();
                std::mem::swap(&mut ls, &mut self.lists);
                let mut m = FilterListMetadata::new("", "");
                ls.set_and_swap(i, &mut m);
                m.enabled = enabled;
                let ghost mv = m@;
                ls.set_and_swap(i, &mut m);
                proof {
                    assert(mv == with_enabled(v0.lists[i as int], enabled));
                    assert(ls@.map_values(|m: FilterListMetadata| m@) =~= v0.lists.update(i as int, mv));
                    lemma_unique_update(v0.lists, i as int, mv);
                }
                self.lists = ls;
                assert(self@ =~= with_lists(v0, v0.lists.update(i as int, mv)));
                Ok(true)
            },
        }
    }

    /// Records how many rules the list named `name` gave; no effect when
    /// there is no such list.
    pub fn set_rule_count(&mut self, name: &str, count: usize)
        ensures
            final(self)@ == with_lists(old(self)@, update_named(old(self)@.lists, name@, |m: MetaView| with_rule_count(m, count))),
    {
        proof {
            use_type_invariant(&*self);
        }
        let ghost v0 = self@;
        match self.position(name) {
            None => {
                assert(self@ =~= with_lists(v0, update_named(v0.lists, name@, |m: MetaView| with_rule_count(m, count))));
            },
            Some(i) => {
                let mut ls: Vec<FilterListMetadata> = Vec::new();
                std::mem::swap(&mut ls, &mut self.lists);
                let mut m = FilterListMetadata::new("", "");
                ls.set_and_swap(i, &mut m);
                m.rule_count = count;
                let ghost mv = m@;
                ls.set_and_swap(i, &mut m);
                proof {
                    assert(mv == with_rule_count(v0.lists[i as int], count));
                    assert(ls@.map_values(|m: FilterListMetadata| m@) =~= v0.lists.update(i as int, mv));
                    lemma_unique_update(v0.lists, i as int, mv);
                }
                self.lists = ls;
                assert(self@ =~= with_lists(v0, update_named(v0.lists, name@, |m: MetaView| with_rule_count(m, count))));
            },
        }
    }

    /// Records a finished download of the list named `name`: the validators
    /// the server sent (kept as they were when it answered "not modified"),
    /// the time and the rule count. No effect when there is no such list.
    pub fn record_fetch(
        &mut self,
        name: &str,
        not_modified: bool,
        etag: Option<String>,
        last_modified: Option<String>,
        now_secs: u64,
        rule_count: usize,
    )
        ensures
            final(self)@ == with_lists(
                old(self)@,
                update_named(
                    old(self)@.lists,
                    name@,
                    |m: MetaView| fetched_meta(m, not_modified, opt_str(etag), opt_str(last_modified), now_secs, rule_count),
                ),
            ),
    {
        proof {
            use_type_invariant(&*self);
        }
        let ghost v0 = self@;
        let ghost f = |m: MetaView| fetched_meta(m, not_modified, opt_str(etag), opt_str(last_modified), now_secs, rule_count);
        match self.position(name) {
            None => {
                assert(self@ =~= with_lists(v0, update_named(v0.lists, name@, f)));
            },
            Some(i) => {
                let mut ls: Vec<FilterListMetadata> = Vec::new();
                std::mem::swap(&mut ls, &mut self.lists);
                let mut m = FilterListMetadata::new("", "");
                ls.set_and_swap(i, &mut m);
                if !not_modified {
                    m.etag = etag;
                    m.last_modified = last_modified;
                }
                m.last_fetched_secs = Some(now_secs);
                m.rule_count = rule_count;
                let ghost mv = m@;
                ls.set_and_swap(i, &mut m);
                proof {
                    assert(mv == f(v0.lists[i as int]));
                    assert(ls@.map_values(|m: FilterListMetadata| m@) =~= v0.lists.update(i as int, mv));
                    lemma_unique_update(v0.lists, i as int, mv);
                }
                self.lists = ls;
                assert(self@ =~= with_lists(v0, update_named(v0.lists, name@, f)));
            },
        }
    }

    /// What a download of the list named `name` needs: its URL and the
    /// validators of the last download.
    pub fn fetch_request(&self, name: &str) -> (r: Result<FetchRequest, ListError>)
        ensures
            find_list(self@.lists, name@) == -1 ==> (r matches Err(ListError::NotFound(n)) && n@ == name@),
            find_list(self@.lists, name@) >= 0 ==> (r matches Ok(q) && ({
                let m = self@.lists[find_list(self@.lists, name@)];
                &&& q.url@ == m.url
                &&& opt_str(q.etag) == m.etag
                &&& opt_str(q.last_modified) == m.last_modified
            })),
    {
        match self.position(name) {
            None => Err(ListError::NotFound(String::from_str(name))),
            Some(i) => {
                let m = &self.lists[i];
                let etag = match &m.etag {
                    Some(e) => Some(e.clone()),
                    None => None,
                };
                let last_modified = match &m.last_modified {
                    Some(l) => Some(l.clone()),
                    None => None,
                };
                Ok(FetchRequest { url: m.url.clone(), etag, last_modified })
            },
        }
    }

    /// Takes in stored metadata entries, in order; an entry replaces the
    /// list of the same name.
    pub fn load_metadata_entries(&mut self, entries: Vec<FilterListMetadata>)
        ensures
            final(self)@ == with_lists(old(self)@, load_all(old(self)@.lists, entries@.map_values(|m: FilterListMetadata| m@))),
    {
        let ghost v0 = self@;
        let ghost ev = entries@.map_values(|m: FilterListMetadata| m@);
        let mut entries = entries;
        let n = entries.len();
        let mut k: usize = 0;
        assert(ev.take(0) =~= Seq::<MetaView>::empty());
        assert(self@ =~= with_lists(v0, load_all(v0.lists, ev.take(0))));
        while k < n
            invariant
                n == ev.len(),
                n == entries@.len(),
                forall|j: int| k <= j < n ==> (#[trigger] entries@[j])@ == ev[j],
                k <= n,
                self@ == with_lists(v0, load_all(v0.lists, ev.take(k as int))),
            decreases n - k,
        {
            proof {
                use_type_invariant(&*self);
            }
            assert(ev.take(k + 1).drop_last() =~= ev.take(k as int));
            assert(ev.take(k + 1).last() == ev[k as int]);
            let mut m = FilterListMetadata::new("", "");
            entries.set_and_swap(k, &mut m);
            let ghost mv = m@;
            let ghost before = self@.lists;
            let pos = self.position(m.name.as_str());
            let mut ls: Vec<FilterListMetadata> = Vec::new();
            std::mem::swap(&mut ls, &mut self.lists);
            match pos {
                Some(i) => {
                    ls.set_and_swap(i, &mut m);
                    proof {
                        assert(ls@.map_values(|m: FilterListMetadata| m@) =~= before.update(i as int, mv));
                        lemma_find_list(before, mv.name);
                        lemma_unique_update(before, i as int, mv);
                    }
                },
                None => {
                    ls.push(m);
                    proof {
                        assert(ls@.map_values(|m: FilterListMetadata| m@) =~= before.push(mv));
                        lemma_unique_push(before, mv);
                    }
                },
            }
            self.lists = ls;
            assert(self@ =~= with_lists(v0, load_all(v0.lists, ev.take(k + 1))));
            k = k + 1;
        }
        assert(ev.take(n as int) =~= ev);
    }

    /// Empties the tree before it is built again from the enabled lists;
    /// returns their names, in registry order.
    pub fn begin_rebuild(&mut self) -> (r: Vec<String>)
        ensures
            final(self)@ == with_tree(old(self)@, Multiset::<Entry>::empty()),
            r.deep_view() == enabled_names(old(self)@.lists),
    {
        proof {
            use_type_invariant(&*self);
        }
        let ghost v0 = self@;
        self.tree = DomainTree::new();
        assert(self@ =~= with_tree(v0, Multiset::<Entry>::empty()));
        self.enabled_list_names()
    }

    /// Takes in the lines of a list file (see `abp::insert_list_lines`);
    /// returns how many held a supported rule.
    pub fn apply_list_lines(&mut self, lines: &Vec<String>) -> (count: usize)
        ensures
            count == rule_line_count(lines.deep_view()),
            final(self)@ == with_tree(old(self)@, after_list_lines(old(self)@.tree, lines.deep_view())),
    {
        proof {
            use_type_invariant(&*self);
        }
        let ghost v0 = self@;
        let mut t = DomainTree::new();
        std::mem::swap(&mut t, &mut self.tree);
        let count = insert_list_lines(&mut t, lines);
        self.tree = t;
        assert(self@ =~= with_tree(v0, after_list_lines(v0.tree, lines.deep_view())));
        count
    }

    /// Whether `domain` is blocked, with no origin context.
    pub fn is_blocked(&self, domain: &str) -> (r: bool)
        ensures
            r == query(self@.tree, domain@, None, 0, false),
    {
        self.tree.is_blocked(domain)
    }

    /// Whether `domain` is blocked when requested from `origin`.
    pub fn is_blocked_with_origin(&self, domain: &str, origin: Option<&str>) -> (r: bool)
        ensures
            r == query(self@.tree, domain@, match origin { Some(o) => Some(o@), None => None }, 0,
                guessed_third_party(domain@, match origin { Some(o) => Some(o@), None => None })),
    {
        self.tree.is_blocked_with_origin(domain, origin)
    }

    /// Full check with resource type and third-party flag.
    pub fn is_blocked_ex(&self, domain: &str, origin: Option<&str>, resource_mask: u16, is_third_party: bool) -> (r: bool)
        ensures
            r == query(self@.tree, domain@, match origin { Some(o) => Some(o@), None => None }, resource_mask, is_third_party),
    {
        self.tree.is_blocked_ex(domain, origin, resource_mask, is_third_party)
    }

    /// The number of rules in the tree.
    pub fn total_rule_count(&self) -> (r: usize)
        ensures
            r == if self@.tree.len() <= usize::MAX { self@.tree.len() } else { usize::MAX as nat },
    {
        self.tree.count_blocked()
    }
}

// ── Laws ─────────────────────────────────────────────────────────────────────

proof fn lemma_find_update_same_name(ls: Seq<MetaView>, i: int, m: MetaView, name: Seq<char>)
    requires
        0 <= i < ls.len(),
        find_list(ls, name) == i,
        m.name == name,
    ensures
        find_list(ls.update(i, m), name) == i,
{
    lemma_find_list(ls, name);
    let u = ls.update(i, m);
    lemma_find_list(u, name);
    let f = find_list(u, name);
    assert(u[i].name == name);
    lemma_find_last(u, name, i);
    if f > i {
        assert(u[f] == ls[f]);
        lemma_find_last(ls, name, f);
    }
}

proof fn lemma_find_last(ls: Seq<MetaView>, name: Seq<char>, j: int)
    requires
        0 <= j < ls.len(),
        ls[j].name == name,
    ensures
        find_list(ls, name) >= j,
    decreases ls.len(),
{
    if ls.last().name != name {
        assert(j < ls.len() - 1);
        assert(ls.drop_last()[j] == ls[j]);
        lemma_find_last(ls.drop_last(), name, j);
    }
}

/// The lists taken in by a rebuild (and fetched by a batch update) are
/// exactly the enabled ones: a name is among the enabled names if and only
/// if a list of that name is enabled.
pub proof fn law_enabled_names_are_enabled(ls: Seq<MetaView>, n: Seq<char>)
    ensures
        enabled_names(ls).contains(n) <==> exists|j: int| 0 <= j < ls.len() && (#[trigger] ls[j]).name == n && ls[j].enabled,
    decreases ls.len(),
{
    if ls.len() > 0 {
        let init = ls.drop_last();
        law_enabled_names_are_enabled(init, n);
        let e = enabled_names(init);
        if enabled_names(ls).contains(n) {
            if e.contains(n) {
                let j = choose|j: int| 0 <= j < init.len() && (#[trigger] init[j]).name == n && init[j].enabled;
                assert(ls[j] == init[j]);
            } else {
                let k = choose|k: int| 0 <= k < enabled_names(ls).len() && enabled_names(ls)[k] == n;
                if ls.last().enabled {
                    if k < e.len() {
                        assert(e[k] == n);
                    }
                }
                assert(ls[ls.len() - 1] == ls.last());
            }
        }
        if exists|j: int| 0 <= j < ls.len() && (#[trigger] ls[j]).name == n && ls[j].enabled {
            let j = choose|j: int| 0 <= j < ls.len() && (#[trigger] ls[j]).name == n && ls[j].enabled;
            if j < ls.len() - 1 {
                assert(init[j] == ls[j]);
                let k = choose|k: int| 0 <= k < e.len() && e[k] == n;
                if ls.last().enabled {
                    assert(enabled_names(ls)[k] == n);
                } else {
                    assert(enabled_names(ls)[k] == n);
                }
            } else {
                assert(ls.last() == ls[j]);
                assert(enabled_names(ls)[e.len() as int] == n);
            }
        }
    }
}

// ── Rebuilds and downloads, step by step ────────────────────────────────────

/// One list's part of a rebuild: the lines of its file go into the tree and
/// the list records how many rules they gave (`apply_list_lines`, then
/// `set_rule_count`); a list whose file is missing (`None`) is skipped.
pub open spec fn rebuild_step(v: ManagerView, name: Seq<char>, file: Option<Seq<Seq<char>>>) -> ManagerView {
    match file {
        None => v,
        Some(lines) => with_lists(
            with_tree(v, after_list_lines(v.tree, lines)),
            update_named(v.lists, name, |m: MetaView| with_rule_count(m, rule_line_count(lines) as usize)),
        ),
    }
}

/// The rebuild steps for the lists `names`, in order; `files` gives the
/// lines of each list's file.
pub open spec fn rebuild_steps(
    v: ManagerView,
    names: Seq<Seq<char>>,
    files: spec_fn(Seq<char>) -> Option<Seq<Seq<char>>>,
) -> ManagerView
    decreases names.len(),
{
    if names.len() == 0 {
        v
    } else {
        rebuild_step(rebuild_steps(v, names.drop_last(), files), names.last(), files(names.last()))
    }
}

/// A whole rebuild: the tree is emptied and the names of the enabled lists
/// are taken (`begin_rebuild`), then each of those lists' files is taken in.
pub open spec fn after_rebuild(v: ManagerView, files: spec_fn(Seq<char>) -> Option<Seq<Seq<char>>>) -> ManagerView {
    rebuild_steps(with_tree(v, Multiset::empty()), enabled_names(v.lists), files)
}

/// The rules of the files of the lists `names` (a missing file gives none).
pub open spec fn files_rules(names: Seq<Seq<char>>, files: spec_fn(Seq<char>) -> Option<Seq<Seq<char>>>) -> Multiset<Entry>
    decreases names.len(),
{
    if names.len() == 0 {
        Multiset::empty()
    } else {
        files_rules(names.drop_last(), files).add(
            match files(names.last()) {
                Some(lines) => file_rules(lines),
                None => Multiset::empty(),
            },
        )
    }
}

/// `a` is `b` with perhaps other rule counts.
pub open spec fn same_but_counts(a: Seq<MetaView>, b: Seq<MetaView>) -> bool {
    a.len() == b.len() && forall|i: int| 0 <= i < a.len() ==> #[trigger] a[i] == with_rule_count(b[i], a[i].rule_count)
}

/// The list named `name` is among `names` and has a file.
pub open spec fn counted(names: Seq<Seq<char>>, files: spec_fn(Seq<char>) -> Option<Seq<Seq<char>>>, name: Seq<char>) -> bool {
    names.contains(name) && files(name) is Some
}

proof fn lemma_find_same_names(a: Seq<MetaView>, b: Seq<MetaView>, name: Seq<char>)
    requires
        a.len() == b.len(),
        forall|i: int| 0 <= i < a.len() ==> (#[trigger] a[i]).name == b[i].name,
    ensures
        find_list(a, name) == find_list(b, name),
    decreases a.len(),
{
    if a.len() > 0 {
        assert(a.last().name == b.last().name);
        assert forall|i: int| 0 <= i < a.len() - 1 implies (#[trigger] a.drop_last()[i]).name == b.drop_last()[i].name by {
            assert(a.drop_last()[i] == a[i]);
            assert(b.drop_last()[i] == b[i]);
        }
        lemma_find_same_names(a.drop_last(), b.drop_last(), name);
    }
}

proof fn lemma_rebuild_steps(
    v: ManagerView,
    names: Seq<Seq<char>>,
    files: spec_fn(Seq<char>) -> Option<Seq<Seq<char>>>,
)
    requires
        unique_names(v.lists),
    ensures
        rebuild_steps(v, names, files).tree == v.tree.add(files_rules(names, files)),
        rebuild_steps(v, names, files).storage_dir == v.storage_dir,
        same_but_counts(rebuild_steps(v, names, files).lists, v.lists),
        forall|i: int| 0 <= i < v.lists.len() ==> (#[trigger] rebuild_steps(v, names, files).lists[i]).rule_count == if counted(names, files, v.lists[i].name) {
            rule_line_count(files(v.lists[i].name).unwrap()) as usize
        } else {
            v.lists[i].rule_count
        },
    decreases names.len(),
{
    if names.len() == 0 {
        assert(v.tree.add(Multiset::empty()) =~= v.tree);
        assert forall|i: int| 0 <= i < v.lists.len() implies #[trigger] v.lists[i] == with_rule_count(v.lists[i], v.lists[i].rule_count) by {}
    } else {
        let init = names.drop_last();
        let n = names.last();
        lemma_rebuild_steps(v, init, files);
        let r = rebuild_steps(v, init, files);
        assert forall|m: Seq<char>| #[trigger] names.contains(m) <==> (init.contains(m) || m == n) by {
            if names.contains(m) {
                let k = choose|k: int| 0 <= k < names.len() && names[k] == m;
                if k < init.len() {
                    assert(init[k] == m);
                }
            }
            if init.contains(m) {
                let k = choose|k: int| 0 <= k < init.len() && init[k] == m;
                assert(names[k] == m);
            }
            if m == n {
                assert(names[names.len() - 1] == m);
            }
        }
        match files(n) {
            None => {
                assert(v.tree.add(files_rules(init, files)).add(Multiset::empty()) =~= v.tree.add(files_rules(init, files)));
            },
            Some(lines) => {
                law_list_file_adds_its_rules(r.tree, lines);
                assert(v.tree.add(files_rules(init, files)).add(file_rules(lines)) =~= v.tree.add(files_rules(names, files)));
                let c = rule_line_count(lines) as usize;
                assert forall|i: int| 0 <= i < r.lists.len() implies (#[trigger] r.lists[i]).name == v.lists[i].name by {
                    assert(r.lists[i] == with_rule_count(v.lists[i], r.lists[i].rule_count));
                }
                lemma_find_same_names(r.lists, v.lists, n);
                lemma_find_list(v.lists, n);
                let j = find_list(v.lists, n);
                let after = rebuild_steps(v, names, files).lists;
                assert forall|i: int| 0 <= i < after.len() implies #[trigger] after[i] == with_rule_count(v.lists[i], after[i].rule_count) by {
                    assert(r.lists[i] == with_rule_count(v.lists[i], r.lists[i].rule_count));
                }
                assert forall|i: int| 0 <= i < v.lists.len() implies (#[trigger] after[i]).rule_count == if counted(names, files, v.lists[i].name) {
                    rule_line_count(files(v.lists[i].name).unwrap()) as usize
                } else {
                    v.lists[i].rule_count
                } by {
                    if i != j && v.lists[i].name == n {
                        lemma_find_unique(v.lists, i);
                    }
                }
            },
        }
    }
}

proof fn lemma_files_rules_agree(
    names: Seq<Seq<char>>,
    files: spec_fn(Seq<char>) -> Option<Seq<Seq<char>>>,
    files2: spec_fn(Seq<char>) -> Option<Seq<Seq<char>>>,
)
    requires
        forall|n: Seq<char>| #[trigger] names.contains(n) ==> files(n) == files2(n),
    ensures
        files_rules(names, files) == files_rules(names, files2),
    decreases names.len(),
{
    if names.len() > 0 {
        let init = names.drop_last();
        assert forall|n: Seq<char>| #[trigger] init.contains(n) implies files(n) == files2(n) by {
            let k = choose|k: int| 0 <= k < init.len() && init[k] == n;
            assert(names[k] == n);
            assert(names.contains(n));
        }
        assert(names[names.len() - 1] == names.last());
        assert(names.contains(names.last()));
        lemma_files_rules_agree(init, files, files2);
    }
}

/// A rebuild (`begin_rebuild`, then `apply_list_lines` and `set_rule_count`
/// for each enabled list whose file exists) makes the tree hold exactly the
/// rules of the enabled lists' files: the files of other lists do not
/// matter. Each enabled list with a file records how many rules its file
/// gave; every other list keeps its count, and nothing else changes.
pub proof fn law_rebuild_holds_enabled_rules(
    v: ManagerView,
    files: spec_fn(Seq<char>) -> Option<Seq<Seq<char>>>,
    files2: spec_fn(Seq<char>) -> Option<Seq<Seq<char>>>,
)
    requires
        unique_names(v.lists),
        forall|n: Seq<char>| #[trigger] enabled_names(v.lists).contains(n) ==> files(n) == files2(n),
    ensures
        after_rebuild(v, files).tree == files_rules(enabled_names(v.lists), files),
        after_rebuild(v, files).tree == after_rebuild(v, files2).tree,
        after_rebuild(v, files).storage_dir == v.storage_dir,
        same_but_counts(after_rebuild(v, files).lists, v.lists),
        forall|i: int| 0 <= i < v.lists.len() ==> (#[trigger] after_rebuild(v, files).lists[i]).rule_count == if counted(enabled_names(v.lists), files, v.lists[i].name) {
            rule_line_count(files(v.lists[i].name).unwrap()) as usize
        } else {
            v.lists[i].rule_count
        },
{
    let v0 = with_tree(v, Multiset::empty());
    lemma_rebuild_steps(v0, enabled_names(v.lists), files);
    lemma_rebuild_steps(v0, enabled_names(v.lists), files2);
    lemma_files_rules_agree(enabled_names(v.lists), files, files2);
    assert(Multiset::<Entry>::empty().add(files_rules(enabled_names(v.lists), files)) =~= files_rules(enabled_names(v.lists), files));
    assert(Multiset::<Entry>::empty().add(files_rules(enabled_names(v.lists), files2)) =~= files_rules(enabled_names(v.lists), files2));
}

/// Disabling a list and rebuilding drops that list's rules: the rebuilt
/// tree is the same whatever the disabled list's file holds.
pub proof fn law_disable_then_rebuild_drops_list(
    v: ManagerView,
    name: Seq<char>,
    files: spec_fn(Seq<char>) -> Option<Seq<Seq<char>>>,
    files2: spec_fn(Seq<char>) -> Option<Seq<Seq<char>>>,
)
    requires
        unique_names(v.lists),
        find_list(v.lists, name) >= 0,
        forall|n: Seq<char>| n != name ==> #[trigger] files(n) == files2(n),
    ensures
        ({
            let off = with_lists(v, update_named(v.lists, name, |m: MetaView| with_enabled(m, false)));
            after_rebuild(off, files).tree == after_rebuild(off, files2).tree
        }),
{
    let i = find_list(v.lists, name);
    lemma_find_list(v.lists, name);
    let ls = v.lists.update(i, with_enabled(v.lists[i], false));
    let off = with_lists(v, update_named(v.lists, name, |m: MetaView| with_enabled(m, false)));
    assert(off.lists == ls);
    law_disabled_not_rebuilt(v.lists, name);
    lemma_unique_update(v.lists, i, with_enabled(v.lists[i], false));
    assert forall|n: Seq<char>| #[trigger] enabled_names(ls).contains(n) implies files(n) == files2(n) by {
        if n == name {
            assert(!enabled_names(ls).contains(name));
        }
    }
    law_rebuild_holds_enabled_rules(off, files, files2);
}

/// A download of the list named `name` whose text is `lines`
/// (`apply_list_lines`, then `record_fetch` with the count it returned).
pub open spec fn after_fetch(
    v: ManagerView,
    name: Seq<char>,
    not_modified: bool,
    etag: Option<Seq<char>>,
    last_modified: Option<Seq<char>>,
    now_secs: u64,
    lines: Seq<Seq<char>>,
) -> ManagerView {
    with_lists(
        with_tree(v, after_list_lines(v.tree, lines)),
        update_named(
            v.lists,
            name,
            |m: MetaView| fetched_meta(m, not_modified, etag, last_modified, now_secs, rule_line_count(lines) as usize),
        ),
    )
}

/// A download adds the rules of the list's text to the tree and records the
/// download in that list's metadata (the count of rules the text gave, the
/// time, and the new validators unless the server answered "not
/// modified"); the other lists are unchanged.
pub proof fn law_fetch_updates_list_and_tree(
    v: ManagerView,
    name: Seq<char>,
    not_modified: bool,
    etag: Option<Seq<char>>,
    last_modified: Option<Seq<char>>,
    now_secs: u64,
    lines: Seq<Seq<char>>,
)
    requires
        find_list(v.lists, name) >= 0,
    ensures
        ({
            let after = after_fetch(v, name, not_modified, etag, last_modified, now_secs, lines);
            let i = find_list(v.lists, name);
            &&& after.tree == v.tree.add(file_rules(lines))
            &&& list_info(after.lists, name) == Some(
                fetched_meta(v.lists[i], not_modified, etag, last_modified, now_secs, rule_line_count(lines) as usize),
            )
            &&& after.lists.len() == v.lists.len()
            &&& forall|j: int| 0 <= j < v.lists.len() && j != i ==> #[trigger] after.lists[j] == v.lists[j]
            &&& not_modified ==> list_info(after.lists, name).unwrap().etag == v.lists[i].etag
                && list_info(after.lists, name).unwrap().last_modified == v.lists[i].last_modified
        }),
{
    let i = find_list(v.lists, name);
    lemma_find_list(v.lists, name);
    law_list_file_adds_its_rules(v.tree, lines);
    let m = fetched_meta(v.lists[i], not_modified, etag, last_modified, now_secs, rule_line_count(lines) as usize);
    lemma_find_update_same_name(v.lists, i, m, name);
}

/// A list that was just installed is found under its name, with the
/// metadata of a fresh list.
pub proof fn law_register_then_info(ls: Seq<MetaView>, name: Seq<char>, url: Seq<char>)
    requires
        find_list(ls, name) == -1,
    ensures
        list_info(ls.push(new_meta(name, url)), name) == Some(new_meta(name, url)),
{
}

/// Setting the enabled flag settles it: the list then holds the new value,
/// so setting the same value again reports no change and changes nothing.
pub proof fn law_set_enabled_settles(ls: Seq<MetaView>, name: Seq<char>, enabled: bool)
    requires
        find_list(ls, name) >= 0,
    ensures
        ({
            let i = find_list(ls, name);
            let after = ls.update(i, with_enabled(ls[i], enabled));
            &&& find_list(after, name) == i
            &&& after[i].enabled == enabled
            &&& after.update(i, with_enabled(after[i], enabled)) == after
        }),
{
    let i = find_list(ls, name);
    lemma_find_list(ls, name);
    let after = ls.update(i, with_enabled(ls[i], enabled));
    lemma_find_update_same_name(ls, i, with_enabled(ls[i], enabled), name);
    assert(after.update(i, with_enabled(after[i], enabled)) =~= after);
}

/// A removed list is gone from the registry.
pub proof fn law_remove_forgets(ls: Seq<MetaView>, name: Seq<char>)
    requires
        unique_names(ls),
        find_list(ls, name) >= 0,
    ensures
        find_list(ls.remove(find_list(ls, name)), name) == -1,
{
    let i = find_list(ls, name);
    lemma_find_list(ls, name);
    let r = ls.remove(i);
    assert forall|j: int| 0 <= j < r.len() implies r[j].name != name by {
        if j < i {
            assert(r[j] == ls[j]);
        } else {
            assert(r[j] == ls[j + 1]);
        }
    }
    lemma_find_list(r, name);
}

/// A disabled list contributes no rules to the next rebuild: its name is not
/// among the enabled ones.
pub proof fn law_disabled_not_rebuilt(ls: Seq<MetaView>, name: Seq<char>)
    requires
        unique_names(ls),
        find_list(ls, name) >= 0,
    ensures
        !enabled_names(ls.update(find_list(ls, name), with_enabled(ls[find_list(ls, name)], false))).contains(name),
{
    let i = find_list(ls, name);
    lemma_find_list(ls, name);
    let after = ls.update(i, with_enabled(ls[i], false));
    law_enabled_names_are_enabled(after, name);
    if enabled_names(after).contains(name) {
        let j = choose|j: int| 0 <= j < after.len() && (#[trigger] after[j]).name == name && after[j].enabled;
        if j != i {
            assert(after[j] == ls[j]);
            if j < i {
                assert(ls[j].name != ls[i].name);
            } else {
                assert(ls[i].name != ls[j].name);
            }
        }
    }
}

/// Removing a list undoes installing it: the registry is as it was before.
pub proof fn law_remove_undoes_register(ls: Seq<MetaView>, name: Seq<char>, url: Seq<char>)
    requires
        find_list(ls, name) == -1,
    ensures
        ({
            let after = ls.push(new_meta(name, url));
            after.remove(find_list(after, name)) == ls
        }),
{
    let after = ls.push(new_meta(name, url));
    assert(find_list(after, name) == ls.len());
    assert(after.remove(ls.len() as int) =~= ls);
}

} // verus!
