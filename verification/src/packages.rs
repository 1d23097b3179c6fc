//! The packages domain: the installed atoms recorded in the world file.

use vstd::prelude::*;
use vstd::string::*;
use crate::declaration_trait::Declaration;
use crate::error::DeclarativeAlpineError;
use crate::text::{
    contains_text, copy_text, from_chars, lemma_lines_of_rendered, lemma_split_pieces_free,
    lines_spec, option_text, split_spec, render_lines, render_lines_spec, split_lines,
    string_views, to_chars, to_strings, to_texts, views,
};

verus! {

/// The texts of `a` that `b` lacks, each once, in the order in which `a`
/// first names them.
pub open spec fn difference_spec(a: Seq<Seq<char>>, b: Seq<Seq<char>>) -> Seq<Seq<char>>
    decreases a.len(),
{
    if a.len() == 0 {
        Seq::<Seq<char>>::empty()
    } else {
        let before = difference_spec(a.drop_last(), b);
        if b.contains(a.last()) || before.contains(a.last()) {
            before
        } else {
            before.push(a.last())
        }
    }
}

/// A difference holds exactly what the first list has and the second lacks,
/// and holds nothing twice.
pub proof fn lemma_difference(a: Seq<Seq<char>>, b: Seq<Seq<char>>)
    ensures
        forall|x: Seq<char>| #[trigger]
            difference_spec(a, b).contains(x) <==> (a.contains(x) && !b.contains(x)),
        difference_spec(a, b).no_duplicates(),
    decreases a.len(),
{
    let d = difference_spec(a, b);
    if a.len() > 0 {
        let before = difference_spec(a.drop_last(), b);
        lemma_difference(a.drop_last(), b);
        assert forall|x: Seq<char>| #[trigger] d.contains(x) <==> (a.contains(x) && !b.contains(x)) by {
            if d.contains(x) {
                let i = choose|i: int| 0 <= i < d.len() && d[i] == x;
                if i < before.len() {
                    assert(before.contains(x));
                    let j = choose|j: int| 0 <= j < a.drop_last().len() && a.drop_last()[j] == x;
                    assert(a[j] == x);
                } else {
                    assert(x == a.last());
                    assert(a[a.len() - 1] == x);
                }
            }
            if a.contains(x) && !b.contains(x) {
                let j = choose|j: int| 0 <= j < a.len() && a[j] == x;
                if j < a.len() - 1 {
                    assert(a.drop_last()[j] == x);
                    assert(before.contains(x));
                    let i = choose|i: int| 0 <= i < before.len() && before[i] == x;
                    assert(d[i] == x);
                } else {
                    if before.contains(x) {
                        let i = choose|i: int| 0 <= i < before.len() && before[i] == x;
                        assert(d[i] == x);
                    } else {
                        assert(d[d.len() - 1] == x);
                    }
                }
            }
        }
        assert forall|i: int, j: int| 0 <= i < d.len() && 0 <= j < d.len() && i != j implies d[i]
            != d[j] by {
            if d.len() > before.len() {
                if i == before.len() {
                    assert(before.contains(before[j]));
                } else if j == before.len() {
                    assert(before.contains(before[i]));
                }
            }
        }
    }
}

/// Computes the texts of `a` that `b` lacks, each once.
pub fn difference(a: &Vec<Vec<char>>, b: &Vec<Vec<char>>) -> (out: Vec<Vec<char>>)
    ensures
        views(out@) == difference_spec(views(a@), views(b@)),
{
    let mut out: Vec<Vec<char>> = Vec::new();
    let mut i: usize = 0;
    proof {
        assert(views(a@).take(0) =~= Seq::<Seq<char>>::empty());
        assert(views(out@) =~= Seq::<Seq<char>>::empty());
    }
    while i < a.len()
        invariant
            i <= a.len(),
            views(out@) == difference_spec(views(a@).take(i as int), views(b@)),
        decreases a.len() - i,
    {
        proof {
            let t = views(a@).take(i as int + 1);
            assert(t.drop_last() =~= views(a@).take(i as int));
            assert(t.last() == a@[i as int]@);
        }
        let in_b = contains_text(b, &a[i]);
        let in_out = contains_text(&out, &a[i]);
        if !in_b && !in_out {
            let ghost before = views(out@);
            out.push(copy_text(&a[i]));
            proof {
                assert(views(out@) =~= before.push(a@[i as int]@));
            }
        }
        i += 1;
    }
    proof {
        assert(views(a@).take(a.len() as int) =~= views(a@));
    }
    out
}

/// The atoms that a list of world-file lines records: the lines that are not
/// blank, each once.
pub open spec fn atoms_spec(lines: Seq<Seq<char>>) -> Seq<Seq<char>> {
    difference_spec(lines, seq![Seq::<char>::empty()])
}

/// The atoms that a world file of the given content records.
pub open spec fn current_spec(content: Seq<char>) -> Seq<Seq<char>> {
    atoms_spec(lines_spec(content))
}

/// The atoms tracked once a diff is applied: the current ones and those to
/// install, without those to remove.
pub open spec fn merged_spec(
    current: Seq<Seq<char>>,
    missing: Seq<Seq<char>>,
    extras: Seq<Seq<char>>,
) -> Seq<Seq<char>> {
    difference_spec(current + missing, extras)
}

/// A snapshot of the world file and of its backup copy. `None` stands for a
/// file that does not exist.
#[derive(Debug)]
pub struct WorldFile {
    pub content: Option<String>,
    pub backup: Option<String>,
}

/// What a [`WorldFile`] holds, as plain text.
pub struct WorldView {
    pub content: Option<Seq<char>>,
    pub backup: Option<Seq<char>>,
}

impl View for WorldFile {
    type V = WorldView;

    open spec fn view(&self) -> WorldView {
        WorldView { content: option_text(self.content), backup: option_text(self.backup) }
    }
}

/// The packages domain.
#[derive(Debug)]
pub struct PackagesDeclaration;

/// What separates the installed atoms from the desired ones.
#[derive(Debug)]
pub struct PackagesDiff {
    /// Desired, not installed: to install.
    pub missing: Vec<String>,
    /// Installed, not desired: to remove from tracking.
    pub extras: Vec<String>,
}

impl Declaration for PackagesDeclaration {
    type Desired = Vec<String>;

    type Current = Vec<String>;

    type Diff = PackagesDiff;

    type Store = WorldFile;

    /// An absent file fails; otherwise the atoms are those that the file
    /// records.
    open spec fn current_post(
        &self,
        store: &WorldFile,
        r: Result<Vec<String>, DeclarativeAlpineError>,
    ) -> bool {
        &&& store@.content is None ==> r is Err && r->Err_0 is ApkWorldFileError
        &&& store@.content is Some ==> r is Ok && string_views(r->Ok_0@) == current_spec(
            store@.content->Some_0,
        )
    }

    /// The two parts are the two set differences; neither names an atom
    /// twice, and no atom is in both.
    open spec fn diff_post(
        &self,
        current: &Vec<String>,
        desired: &Vec<String>,
        diff: PackagesDiff,
    ) -> bool {
        &&& string_views(diff.missing@) == difference_spec(
            string_views(desired@),
            string_views(current@),
        )
        &&& string_views(diff.extras@) == difference_spec(
            string_views(current@),
            string_views(desired@),
        )
        &&& string_views(diff.missing@).to_set() == string_views(desired@).to_set().difference(
            string_views(current@).to_set(),
        )
        &&& string_views(diff.extras@).to_set() == string_views(current@).to_set().difference(
            string_views(desired@).to_set(),
        )
        &&& string_views(diff.missing@).to_set().disjoint(string_views(diff.extras@).to_set())
        &&& string_views(diff.missing@).no_duplicates()
        &&& string_views(diff.extras@).no_duplicates()
    }

    /// An absent file fails and a dry run changes nothing; otherwise the old
    /// content is the backup, the new content lists the merged atoms, and the
    /// upgrade command is due.
    open spec fn apply_post(
        &self,
        before: WorldFile,
        after: WorldFile,
        diff: &PackagesDiff,
        dry_run: bool,
        r: Result<bool, DeclarativeAlpineError>,
    ) -> bool {
        &&& before@.content is None ==> r is Err && r->Err_0 is ApkWorldFileError && after@
            == before@
        &&& before@.content is Some && dry_run ==> r == Ok::<bool, DeclarativeAlpineError>(false)
            && after@ == before@
        &&& before@.content is Some && !dry_run ==> r == Ok::<bool, DeclarativeAlpineError>(true)
            && after@ == applied_spec(
            before@,
            string_views(diff.missing@),
            string_views(diff.extras@),
        )
    }

    /// The atoms that the world file records. Fails when the file is absent.
    fn get_current(&self, store: &WorldFile) -> (r: Result<Vec<String>, DeclarativeAlpineError>) {
        match &store.content {
            None => Err(DeclarativeAlpineError::ApkWorldFileError),
            Some(content) => {
                let lines = split_lines(&to_chars(content.as_str()));
                let mut blank: Vec<Vec<char>> = Vec::new();
                blank.push(Vec::new());
                proof {
                    assert(views(blank@) =~= seq![Seq::<char>::empty()]);
                }
                let atoms = difference(&lines, &blank);
                Ok(to_strings(&atoms))
            },
        }
    }

    /// The diff between the installed and the desired atoms: what is desired
    /// and not installed, and what is installed and not desired.
    fn compute_diff(&self, current: &Vec<String>, desired: &Vec<String>) -> (diff: PackagesDiff) {
        let cur = to_texts(current);
        let des = to_texts(desired);
        let missing = to_strings(&difference(&des, &cur));
        let extras = to_strings(&difference(&cur, &des));
        proof {
            lemma_diff_sets(string_views(current@), string_views(desired@));
        }
        PackagesDiff { missing, extras }
    }

    /// Applies a diff to the world file. The atoms are read anew from the
    /// file, so an absent file fails first. A dry run changes nothing and
    /// returns `false`. Otherwise the old content becomes the backup, the file
    /// is rewritten whole with the merged atoms, one per line, and `true` says
    /// that the upgrade command is now due. Atoms to remove are only dropped
    /// from the file: no removal command is asked for.
    fn apply(&self, store: &mut WorldFile, diff: &PackagesDiff, dry_run: bool) -> (r: Result<
        bool,
        DeclarativeAlpineError,
    >) {
        let current = match self.get_current(store) {
            Ok(current) => current,
            Err(e) => {
                return Err(e);
            },
        };
        let mut all = to_texts(&current);
        let mut missing = to_texts(&diff.missing);
        let ghost cur_view = views(all@);
        let ghost missing_view = views(missing@);
        all.append(&mut missing);
        proof {
            assert(views(all@) =~= cur_view + missing_view);
        }
        let merged = difference(&all, &to_texts(&diff.extras));
        if dry_run {
            return Ok(false);
        }
        let content = from_chars(&render_lines(&merged));
        store.backup = store.content.take();
        store.content = Some(content);
        Ok(true)
    }
}

impl PackagesDeclaration {
    /// Settles an apply once the upgrade command has run. After a success the
    /// snapshot stays as it is, backup included. After a failure the backup is
    /// moved back over the file and the error carries the command's error
    /// output; with no backup to move, the failure is an I/O error and nothing
    /// changes.
    pub fn conclude(&self, store: &mut WorldFile, succeeded: bool, error_output: &str) -> (r: Result<
        (),
        DeclarativeAlpineError,
    >)
        ensures
            succeeded ==> r is Ok && final(store)@ == old(store)@,
            !succeeded && old(store)@.backup is Some ==> final(store)@ == restored_spec(old(store)@)
                && r is Err && r->Err_0 is ApkUpgradeError && r->Err_0->ApkUpgradeError_0@
                == error_output@,
            !succeeded && old(store)@.backup is None ==> final(store)@ == old(store)@ && r is Err
                && r->Err_0 is IoError && r->Err_0->IoError_0@ == "no backup to restore"@,
    {
        if succeeded {
            return Ok(());
        }
        if store.backup.is_none() {
            return Err(DeclarativeAlpineError::IoError(String::from_str("no backup to restore")));
        }
        store.content = store.backup.take();
        Err(DeclarativeAlpineError::ApkUpgradeError(from_chars(&to_chars(error_output))))
    }
}

/// The snapshot after a diff is written: the old content is the backup, the
/// new content lists the merged atoms.
pub open spec fn applied_spec(
    store: WorldView,
    missing: Seq<Seq<char>>,
    extras: Seq<Seq<char>>,
) -> WorldView {
    WorldView {
        content: Some(
            render_lines_spec(merged_spec(current_spec(store.content->Some_0), missing, extras)),
        ),
        backup: store.content,
    }
}

/// The snapshot after the backup is moved back over the file.
pub open spec fn restored_spec(store: WorldView) -> WorldView {
    WorldView { content: store.backup, backup: None }
}

/// The two parts of a diff, as sets: each is a set difference, and they share
/// nothing.
pub proof fn lemma_diff_sets(current: Seq<Seq<char>>, desired: Seq<Seq<char>>)
    ensures
        difference_spec(desired, current).to_set() == desired.to_set().difference(current.to_set()),
        difference_spec(current, desired).to_set() == current.to_set().difference(desired.to_set()),
        difference_spec(desired, current).to_set().disjoint(
            difference_spec(current, desired).to_set(),
        ),
        difference_spec(desired, current).no_duplicates(),
        difference_spec(current, desired).no_duplicates(),
{
    lemma_difference(desired, current);
    lemma_difference(current, desired);
    assert(difference_spec(desired, current).to_set() =~= desired.to_set().difference(
        current.to_set(),
    ));
    assert(difference_spec(current, desired).to_set() =~= current.to_set().difference(
        desired.to_set(),
    ));
}

/// Once a diff is applied, the tracked atoms are exactly the desired ones, and
/// a second diff against the same desired atoms is empty.
pub proof fn lemma_reapplied_diff_is_empty(current: Seq<Seq<char>>, desired: Seq<Seq<char>>)
    ensures
        ({
            let merged = merged_spec(
                current,
                difference_spec(desired, current),
                difference_spec(current, desired),
            );
            &&& merged.to_set() == desired.to_set()
            &&& difference_spec(desired, merged).len() == 0
            &&& difference_spec(merged, desired).len() == 0
        }),
{
    let missing = difference_spec(desired, current);
    let extras = difference_spec(current, desired);
    let merged = merged_spec(current, missing, extras);
    lemma_difference(desired, current);
    lemma_difference(current, desired);
    lemma_difference(current + missing, extras);
    assert forall|x: Seq<char>| merged.contains(x) <==> desired.contains(x) by {
        if current.contains(x) {
            let i = choose|i: int| 0 <= i < current.len() && current[i] == x;
            assert((current + missing)[i] == x);
        }
        if missing.contains(x) {
            let i = choose|i: int| 0 <= i < missing.len() && missing[i] == x;
            assert((current + missing)[current.len() + i] == x);
        }
        if (current + missing).contains(x) {
            let i = choose|i: int| 0 <= i < (current + missing).len() && (current + missing)[i] == x;
            if i < current.len() {
                assert(current[i] == x);
            } else {
                assert(missing[i - current.len()] == x);
            }
        }
    }
    assert(merged.to_set() =~= desired.to_set());
    lemma_difference(desired, merged);
    lemma_difference(merged, desired);
    let a = difference_spec(desired, merged);
    if a.len() > 0 {
        assert(a.contains(a[0]));
    }
    let b = difference_spec(merged, desired);
    if b.len() > 0 {
        assert(b.contains(b[0]));
    }
}

/// After a failed upgrade the world file holds what it held before the
/// apply, whatever the diff was.
pub proof fn lemma_failed_upgrade_restores(
    store: WorldView,
    missing: Seq<Seq<char>>,
    extras: Seq<Seq<char>>,
)
    requires
        store.content is Some,
    ensures
        applied_spec(store, missing, extras).backup == store.content,
        restored_spec(applied_spec(store, missing, extras)).content == store.content,
{
}

/// A list that holds nothing twice and nothing of `b` is its own difference
/// from `b`.
pub proof fn lemma_difference_keeps(a: Seq<Seq<char>>, b: Seq<Seq<char>>)
    requires
        a.no_duplicates(),
        forall|i: int| 0 <= i < a.len() ==> !b.contains(#[trigger] a[i]),
    ensures
        difference_spec(a, b) == a,
    decreases a.len(),
{
    if a.len() > 0 {
        let rest = a.drop_last();
        assert forall|i: int| 0 <= i < rest.len() implies !b.contains(#[trigger] rest[i]) by {
            assert(rest[i] == a[i]);
        }
        lemma_difference_keeps(rest, b);
        if rest.contains(a.last()) {
            let i = choose|i: int| 0 <= i < rest.len() && rest[i] == a.last();
            assert(a[i] == a[a.len() - 1]);
        }
        assert(rest.push(a.last()) =~= a);
    }
}

/// The atoms read from a world file are not empty, hold no newline, and
/// none is read twice.
pub proof fn lemma_current_atoms_are_clean(content: Seq<char>)
    ensures
        current_spec(content).no_duplicates(),
        forall|i: int|
            0 <= i < current_spec(content).len() ==> (#[trigger] current_spec(content)[i]).len() > 0
                && !current_spec(content)[i].contains('\n'),
{
    let lines = lines_spec(content);
    let blank = seq![Seq::<char>::empty()];
    lemma_difference(lines, blank);
    lemma_split_pieces_free(content, '\n');
    let atoms = current_spec(content);
    assert forall|i: int| 0 <= i < atoms.len() implies (#[trigger] atoms[i]).len() > 0
        && !atoms[i].contains('\n') by {
        let x = atoms[i];
        assert(atoms.contains(x));
        assert(lines.contains(x) && !blank.contains(x));
        if x.len() == 0 {
            assert(x =~= Seq::<char>::empty());
            assert(blank[0] == x);
        }
        let j = choose|j: int| 0 <= j < lines.len() && lines[j] == x;
        assert(split_spec(content, '\n')[j] == x);
    }
}

/// Applying the computed diff and reading the world file again gives the
/// merged atoms, and the diff against the same desired atoms is then empty.
/// This is stated for desired atoms that are not empty and hold no newline:
/// no world file records any other atom.
pub proof fn lemma_applied_world_is_settled(content: Seq<char>, desired: Seq<Seq<char>>)
    requires
        forall|i: int|
            0 <= i < desired.len() ==> (#[trigger] desired[i]).len() > 0 && !desired[i].contains(
                '\n',
            ),
    ensures
        ({
            let current = current_spec(content);
            let merged = merged_spec(
                current,
                difference_spec(desired, current),
                difference_spec(current, desired),
            );
            let after = current_spec(render_lines_spec(merged));
            &&& after == merged
            &&& difference_spec(desired, after).len() == 0
            &&& difference_spec(after, desired).len() == 0
        }),
{
    let current = current_spec(content);
    let missing = difference_spec(desired, current);
    let extras = difference_spec(current, desired);
    let merged = merged_spec(current, missing, extras);
    let blank = seq![Seq::<char>::empty()];
    lemma_reapplied_diff_is_empty(current, desired);
    lemma_difference(current + missing, extras);
    assert forall|i: int| 0 <= i < merged.len() implies (#[trigger] merged[i]).len() > 0
        && !merged[i].contains('\n') && !blank.contains(merged[i]) by {
        let x = merged[i];
        assert(merged.contains(x));
        assert(merged.to_set().contains(x));
        assert(desired.to_set().contains(x));
        let j = choose|j: int| 0 <= j < desired.len() && desired[j] == x;
        assert(desired[j].len() > 0);
        if blank.contains(x) {
            let k = choose|k: int| 0 <= k < blank.len() && blank[k] == x;
            assert(x.len() == 0);
        }
    }
    lemma_lines_of_rendered(merged);
    lemma_difference_keeps(merged, blank);
}

} // verus!
