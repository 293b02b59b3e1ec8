//! The state of the user interface: the log panel, the status line, the
//! special-paths list with its selection, and the add-path dialog. The
//! window itself is drawn by the application; this is what it shows and
//! how each message and action changes it.

use vstd::prelude::*;
use crate::config::{Config, pairs_view, remove_keys, strings_view, insert_sorted};
use crate::text::{chars_of, string_of, trim, trim_chars};

verus! {

/// A message from the USB worker to the user interface. `R` is how the
/// worker is told which file the user picked.
pub enum UsbToUi<R> {
    Log(String),
    Status(String),
    PickFile(R),
}

/// How many log lines the panel keeps.
pub const MAX_LOG_LINES: usize = 2000;

/// The last `n` elements of `s` (all of them when there are fewer).
pub open spec fn keep_last<T>(s: Seq<T>, n: nat) -> Seq<T> {
    if s.len() > n {
        s.skip(s.len() - n)
    } else {
        s
    }
}

/// The names of the selected rows of `rows`, in selection order; indices
/// past the end are skipped.
pub open spec fn selected_names(selected: Seq<usize>, rows: Seq<(Seq<char>, Seq<char>)>) -> Seq<Seq<char>>
    decreases selected.len(),
{
    if selected.len() == 0 {
        Seq::empty()
    } else {
        let rest = selected_names(selected.drop_last(), rows);
        let i = selected.last();
        if i < rows.len() {
            rest.push(rows[i as int].0)
        } else {
            rest
        }
    }
}

/// The interface state.
pub struct HadronApp<R> {
    pub log_lines: Vec<String>,
    pub status: String,
    pub special_paths: Vec<(String, String)>,
    pub selected: Vec<usize>,
    pub show_logs: bool,
    pub add_name: String,
    pub add_folder: Option<String>,
    pub pending_picker: Option<R>,
}

impl<R> HadronApp<R> {
    pub fn new() -> (a: Self)
        ensures
            a.log_lines@.len() == 0,
            a.status@ == "Starting Hadron..."@,
            a.special_paths@.len() == 0,
            a.selected@.len() == 0,
            a.show_logs,
            a.add_name@.len() == 0,
            a.add_folder.is_none(),
            a.pending_picker.is_none(),
    {
        HadronApp {
            log_lines: Vec::new(),
            status: "Starting Hadron...".to_owned(),
            special_paths: Vec::new(),
            selected: Vec::new(),
            show_logs: true,
            add_name: String::new(),
            add_folder: None,
            pending_picker: None,
        }
    }

    /// Shows the special paths of `cfg`.
    pub fn refresh_paths(&mut self, cfg: &Config)
        ensures
            pairs_view(final(self).special_paths@) == cfg@,
            final(self).log_lines == old(self).log_lines,
            final(self).status == old(self).status,
            final(self).show_logs == old(self).show_logs,
            final(self).pending_picker == old(self).pending_picker,
            final(self).selected == old(self).selected,
            final(self).add_name == old(self).add_name,
            final(self).add_folder == old(self).add_folder,
    {
        self.special_paths = cfg.entries();
    }

    /// Takes in one message from the USB worker: a log line (the panel keeps
    /// the last 2000), a new status, or a request to pick a file.
    pub fn receive(&mut self, msg: UsbToUi<R>)
        ensures
            match msg {
                UsbToUi::Log(line) => {
                    &&& strings_view(final(self).log_lines@) == keep_last(
                        strings_view(old(self).log_lines@).push(line@),
                        MAX_LOG_LINES as nat,
                    )
                    &&& final(self).status == old(self).status
                    &&& final(self).pending_picker == old(self).pending_picker
                },
                UsbToUi::Status(s) => {
                    &&& final(self).status == s
                    &&& final(self).log_lines == old(self).log_lines
                    &&& final(self).pending_picker == old(self).pending_picker
                },
                UsbToUi::PickFile(tx) => {
                    &&& final(self).pending_picker == Some(tx)
                    &&& final(self).log_lines == old(self).log_lines
                    &&& final(self).status == old(self).status
                },
            },
            final(self).special_paths == old(self).special_paths,
            final(self).selected == old(self).selected,
            final(self).add_name == old(self).add_name,
            final(self).add_folder == old(self).add_folder,
            final(self).show_logs == old(self).show_logs,
    {
        match msg {
            UsbToUi::Log(line) => {
                let ghost all = strings_view(self.log_lines@).push(line@);
                self.log_lines.push(line);
                assert(strings_view(self.log_lines@) =~= all);
                if self.log_lines.len() > MAX_LOG_LINES {
                    let drop = self.log_lines.len() - MAX_LOG_LINES;
                    let mut kept: Vec<String> = Vec::new();
                    let mut i: usize = drop;
                    while i < self.log_lines.len()
                        invariant
                            drop <= i <= self.log_lines@.len(),
                            strings_view(kept@) == strings_view(self.log_lines@).subrange(
                                drop as int,
                                i as int,
                            ),
                        decreases self.log_lines@.len() - i,
                    {
                        let ghost before = kept@;
                        let line_copy = self.log_lines[i].clone();
                        kept.push(line_copy);
                        assert(strings_view(kept@) =~= strings_view(before).push(
                            self.log_lines@[i as int]@,
                        ));
                        assert(strings_view(kept@) =~= strings_view(self.log_lines@).subrange(
                            drop as int,
                            i + 1,
                        ));
                        i += 1;
                    }
                    self.log_lines = kept;
                    assert(strings_view(self.log_lines@) =~= keep_last(all, MAX_LOG_LINES as nat));
                }
            },
            UsbToUi::Status(s) => {
                self.status = s;
            },
            UsbToUi::PickFile(tx) => {
                self.pending_picker = Some(tx);
            },
        }
    }

    /// Selects row `i`, or unselects it when it is selected.
    pub fn toggle_selection(&mut self, i: usize)
        ensures
            old(self).selected@.contains(i) ==> final(self).selected@ == old(self).selected@.filter(
                |x: usize| x != i,
            ),
            !old(self).selected@.contains(i) ==> final(self).selected@ == old(self).selected@.push(i),
            final(self).special_paths == old(self).special_paths,
            final(self).log_lines == old(self).log_lines,
            final(self).status == old(self).status,
            final(self).show_logs == old(self).show_logs,
            final(self).pending_picker == old(self).pending_picker,
            final(self).add_name == old(self).add_name,
            final(self).add_folder == old(self).add_folder,
    {
        let mut found = false;
        let mut kept: Vec<usize> = Vec::new();
        let mut j: usize = 0;
        let ghost sel = self.selected@;
        let ghost pred = |x: usize| x != i;
        assert(sel.take(0).filter(pred) =~= Seq::<usize>::empty());
        while j < self.selected.len()
            invariant
                j <= self.selected@.len(),
                sel == self.selected@,
                pred == (|x: usize| x != i),
                kept@ == sel.take(j as int).filter(pred),
                found == (exists|k: int| 0 <= k < j && #[trigger] sel[k] == i),
            decreases self.selected@.len() - j,
        {
            let x = self.selected[j];
            proof {
                assert(sel.take(j + 1).drop_last() == sel.take(j as int));
                assert(sel.take(j + 1).last() == x);
                reveal_with_fuel(Seq::filter, 1);
            }
            if x == i {
                found = true;
            } else {
                kept.push(x);
            }
            proof {
                assert(sel.take(j + 1) == sel.take(j as int).push(x));
            }
            j += 1;
        }
        assert(sel.take(j as int) == sel);
        assert(found == sel.contains(i));
        if found {
            self.selected = kept;
        } else {
            self.selected.push(i);
        }
    }

    /// Opens the add-path dialog for `folder`, proposing `name`.
    pub fn begin_add(&mut self, folder: String, name: String)
        ensures
            final(self).add_folder == Some(folder),
            final(self).add_name == name,
            final(self).special_paths == old(self).special_paths,
            final(self).selected == old(self).selected,
            final(self).log_lines == old(self).log_lines,
            final(self).status == old(self).status,
            final(self).show_logs == old(self).show_logs,
            final(self).pending_picker == old(self).pending_picker,
    {
        self.add_name = name;
        self.add_folder = Some(folder);
    }

    /// Closes the add-path dialog without adding anything.
    pub fn cancel_add(&mut self)
        ensures
            final(self).add_folder.is_none(),
            final(self).add_name@.len() == 0,
            final(self).special_paths == old(self).special_paths,
            final(self).selected == old(self).selected,
            final(self).log_lines == old(self).log_lines,
            final(self).status == old(self).status,
            final(self).show_logs == old(self).show_logs,
            final(self).pending_picker == old(self).pending_picker,
    {
        self.add_folder = None;
        self.add_name = String::new();
    }

    /// Confirms the add-path dialog: the trimmed name is given the chosen
    /// folder in `cfg`, unless the name is blank. The dialog closes either
    /// way. Returns whether `cfg` changed (and so is to be saved).
    pub fn commit_add(&mut self, cfg: &mut Config) -> (changed: bool)
        ensures
            changed == (trim(old(self).add_name@).len() > 0 && old(self).add_folder.is_some()),
            changed ==> final(cfg)@ == insert_sorted(
                old(cfg)@,
                trim(old(self).add_name@),
                old(self).add_folder.unwrap()@,
            ),
            !changed ==> final(cfg)@ == old(cfg)@,
            final(cfg).file() == old(cfg).file(),
            final(self).add_folder.is_none(),
            final(self).add_name@.len() == 0,
            final(self).special_paths == old(self).special_paths,
            final(self).selected == old(self).selected,
            final(self).log_lines == old(self).log_lines,
            final(self).status == old(self).status,
            final(self).show_logs == old(self).show_logs,
            final(self).pending_picker == old(self).pending_picker,
    {
        let raw = chars_of(self.add_name.as_str());
        let name_chars = trim_chars(raw.as_slice());
        if name_chars.len() == 0 {
            self.add_folder = None;
            self.add_name = String::new();
            return false;
        }
        let name = string_of(name_chars.as_slice());
        let folder = self.add_folder.take();
        let changed = match folder {
            Some(f) => {
                cfg.add(name.as_str(), f.as_str());
                true
            },
            None => false,
        };
        self.add_name = String::new();
        changed
    }

    /// Removes the selected special paths from `cfg` and clears the
    /// selection; nothing happens when no selected row exists. Returns
    /// whether `cfg` changed (and so is to be saved).
    pub fn remove_selected(&mut self, cfg: &mut Config) -> (changed: bool)
        ensures
            changed == (selected_names(old(self).selected@, pairs_view(old(self).special_paths@)).len() > 0),
            changed ==> final(cfg)@ == remove_keys(
                old(cfg)@,
                selected_names(old(self).selected@, pairs_view(old(self).special_paths@)),
            ),
            changed ==> final(self).selected@.len() == 0,
            !changed ==> final(cfg)@ == old(cfg)@ && final(self).selected == old(self).selected,
            final(cfg).file() == old(cfg).file(),
            final(self).special_paths == old(self).special_paths,
            final(self).log_lines == old(self).log_lines,
            final(self).status == old(self).status,
            final(self).show_logs == old(self).show_logs,
            final(self).pending_picker == old(self).pending_picker,
    {
        let ghost rows = pairs_view(self.special_paths@);
        let ghost sel = self.selected@;
        let mut names: Vec<String> = Vec::new();
        let mut j: usize = 0;
        assert(sel.take(0) =~= Seq::<usize>::empty());
        while j < self.selected.len()
            invariant
                j <= self.selected@.len(),
                sel == self.selected@,
                rows == pairs_view(self.special_paths@),
                strings_view(names@) == selected_names(sel.take(j as int), rows),
            decreases self.selected@.len() - j,
        {
            let i = self.selected[j];
            proof {
                assert(sel.take(j + 1).drop_last() == sel.take(j as int));
                assert(sel.take(j + 1).last() == i);
            }
            if i < self.special_paths.len() {
                let ghost before = names@;
                names.push(self.special_paths[i].0.clone());
                assert(strings_view(names@) =~= strings_view(before).push(rows[i as int].0));
            }
            j += 1;
        }
        assert(sel.take(j as int) == sel);
        if names.len() == 0 {
            return false;
        }
        cfg.remove(names.as_slice());
        self.selected = Vec::new();
        true
    }
}


/// The log panel never holds more than 2000 lines: what a log message
/// leaves is at most that long.
pub proof fn lemma_log_is_bounded(lines: Seq<Seq<char>>, line: Seq<char>)
    ensures
        keep_last(lines.push(line), MAX_LOG_LINES as nat).len() <= MAX_LOG_LINES,
        keep_last(lines.push(line), MAX_LOG_LINES as nat).last() == line,
{
}

/// The log panel's lines after `ls` have been received, one message at a
/// time (as `receive` keeps them), starting from `lines`.
pub open spec fn received_logs(lines: Seq<Seq<char>>, ls: Seq<Seq<char>>) -> Seq<Seq<char>>
    decreases ls.len(),
{
    if ls.len() == 0 {
        lines
    } else {
        keep_last(received_logs(lines, ls.drop_last()).push(ls.last()), MAX_LOG_LINES as nat)
    }
}

proof fn lemma_keep_last_push(x: Seq<Seq<char>>, a: Seq<char>, n: nat)
    ensures
        keep_last(keep_last(x, n).push(a), n) == keep_last(x.push(a), n),
{
    if x.len() > n {
        assert(keep_last(keep_last(x, n).push(a), n) =~= keep_last(x.push(a), n));
    }
}

/// Over any sequence of log messages, the panel keeps the last 2000 of
/// all the lines in order, so it never holds more than 2000.
pub proof fn lemma_logs_keep_last(lines: Seq<Seq<char>>, ls: Seq<Seq<char>>)
    requires
        lines.len() <= MAX_LOG_LINES,
    ensures
        received_logs(lines, ls) == keep_last(lines + ls, MAX_LOG_LINES as nat),
        received_logs(lines, ls).len() <= MAX_LOG_LINES,
    decreases ls.len(),
{
    if ls.len() == 0 {
        assert(lines + ls =~= lines);
    } else {
        lemma_logs_keep_last(lines, ls.drop_last());
        lemma_keep_last_push(lines + ls.drop_last(), ls.last(), MAX_LOG_LINES as nat);
        assert((lines + ls.drop_last()).push(ls.last()) =~= lines + ls);
    }
}

/// Taking out every `i` leaves a sequence without `i` unchanged.
proof fn lemma_filter_absent(s: Seq<usize>, i: usize)
    requires
        !s.contains(i),
    ensures
        s.filter(|x: usize| x != i) == s,
    decreases s.len(),
{
    reveal_with_fuel(Seq::filter, 1);
    if s.len() > 0 {
        let rest = s.drop_last();
        assert(!rest.contains(i)) by {
            if rest.contains(i) {
                let k = choose|k: int| 0 <= k < rest.len() && rest[k] == i;
                assert(s[k] == i);
            }
        }
        lemma_filter_absent(rest, i);
        assert(s.last() != i) by {
            assert(s[s.len() - 1] == s.last());
        }
        assert(rest.push(s.last()) == s);
    }
}

/// Selecting a row and then unselecting it leaves the selection as it was.
pub proof fn lemma_toggle_twice(selected: Seq<usize>, i: usize)
    requires
        !selected.contains(i),
    ensures
        selected.push(i).contains(i),
        selected.push(i).filter(|x: usize| x != i) == selected,
{
    reveal_with_fuel(Seq::filter, 1);
    lemma_filter_absent(selected, i);
    assert(selected.push(i).drop_last() == selected);
    assert(selected.push(i)[selected.len() as int] == i);
}

} // verus!
