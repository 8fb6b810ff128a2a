use vstd::prelude::*;
use std::path::PathBuf;
use crate::adb::ExPathBuf;
use crate::encoding::{spec_config_label, spec_from_config, TextEncoding};
use crate::filter::FilterSpec;
use crate::util::str_equal;

verus! {

#[derive(Debug, Clone, Copy, PartialEq, Eq, Structural)]
pub enum ThemeMode {
    Light,
    Dark,
}

/// One column of the log table: its id, width and whether it shows.
#[derive(Debug, Clone, PartialEq, Eq)]
pub struct TableColumnConfig {
    pub id: String,
    pub width: u16,
    pub visible: bool,
}

impl View for TableColumnConfig {
    type V = (Seq<char>, u16, bool);

    open spec fn view(&self) -> (Seq<char>, u16, bool) {
        (self.id@, self.width, self.visible)
    }
}

#[derive(Debug, Clone, PartialEq, Eq)]
pub struct TableConfig {
    pub columns: Vec<TableColumnConfig>,
}

impl View for TableConfig {
    type V = Seq<(Seq<char>, u16, bool)>;

    open spec fn view(&self) -> Seq<(Seq<char>, u16, bool)> {
        self.columns@.map_values(|c: TableColumnConfig| c@)
    }
}

#[derive(Debug, Clone, Copy, PartialEq, Eq, Structural)]
pub struct WindowConfig {
    pub width: u16,
    pub height: u16,
}

impl Default for WindowConfig {
    fn default() -> (r: Self)
        ensures
            r == (WindowConfig { width: 1180, height: 720 }),
    {
        WindowConfig { width: 1180, height: 720 }
    }
}

/// The known table columns, in display order: id, default width, and the least and
/// greatest width allowed.
pub open spec fn column_specs() -> Seq<(Seq<char>, u16, u16, u16)> {
    seq![
        ("bookmark"@, 24u16, 22u16, 36u16),
        ("lineNo"@, 58u16, 52u16, 120u16),
        ("date"@, 50u16, 48u16, 90u16),
        ("time"@, 98u16, 82u16, 160u16),
        ("level"@, 40u16, 36u16, 60u16),
        ("pid"@, 54u16, 48u16, 100u16),
        ("tid"@, 54u16, 48u16, 100u16),
        ("tag"@, 154u16, 110u16, 260u16),
        ("message"@, 360u16, 220u16, 1200u16),
    ]
}

pub const COLUMN_COUNT: usize = 9;

/// The `k`-th known column.
fn column_spec(k: usize) -> (r: (&'static str, u16, u16, u16))
    requires
        k < COLUMN_COUNT,
    ensures
        (r.0@, r.1, r.2, r.3) == column_specs()[k as int],
{
    match k {
        0 => ("bookmark", 24, 22, 36),
        1 => ("lineNo", 58, 52, 120),
        2 => ("date", 50, 48, 90),
        3 => ("time", 98, 82, 160),
        4 => ("level", 40, 36, 60),
        5 => ("pid", 54, 48, 100),
        6 => ("tid", 54, 48, 100),
        7 => ("tag", 154, 110, 260),
        _ => ("message", 360, 220, 1200),
    }
}

/// `x` brought into `[lo, hi]`.
pub open spec fn spec_clamp(x: u16, lo: u16, hi: u16) -> u16 {
    if x < lo {
        lo
    } else if x > hi {
        hi
    } else {
        x
    }
}

fn clamp_u16(x: u16, lo: u16, hi: u16) -> (r: u16)
    ensures
        r == spec_clamp(x, lo, hi),
{
    if x < lo {
        lo
    } else if x > hi {
        hi
    } else {
        x
    }
}

/// The default table: every known column at its default width, shown.
pub open spec fn default_columns() -> Seq<(Seq<char>, u16, bool)> {
    Seq::new(9, |k: int| (column_specs()[k].0, column_specs()[k].1, true))
}

/// The first configured column with the id `id`, among the first `n`.
pub open spec fn find_column(cols: Seq<(Seq<char>, u16, bool)>, id: Seq<char>, n: int) -> Option<(Seq<char>, u16, bool)>
    decreases n,
{
    if n <= 0 {
        None
    } else {
        match find_column(cols, id, n - 1) {
            Some(c) => Some(c),
            None => if cols[n - 1].0 == id {
                Some(cols[n - 1])
            } else {
                None
            },
        }
    }
}

pub open spec fn configured(cols: Seq<(Seq<char>, u16, bool)>, id: Seq<char>) -> Option<(Seq<char>, u16, bool)> {
    find_column(cols, id, cols.len() as int)
}

/// Every known column is configured, and hidden.
pub open spec fn all_hidden(cols: Seq<(Seq<char>, u16, bool)>) -> bool {
    forall|k: int| 0 <= k < 9 ==> (#[trigger] configured(cols, column_specs()[k].0) matches Some(c) && !c.2)
}

/// The `k`-th known column as configured: its width brought within its bounds (the default
/// when unconfigured), shown as configured (shown when unconfigured), the message always.
pub open spec fn normalized_column(cols: Seq<(Seq<char>, u16, bool)>, k: int) -> (Seq<char>, u16, bool) {
    let s = column_specs()[k];
    let c = configured(cols, s.0);
    let width = match c {
        Some(col) => col.1,
        None => s.1,
    };
    let visible = if s.0 == "message"@ {
        true
    } else {
        match c {
            Some(col) => col.2,
            None => true,
        }
    };
    (s.0, spec_clamp(width, s.2, s.3), visible)
}

/// The table a configuration normalizes to: the defaults when every column is hidden, else
/// each known column in order, as configured; unknown columns are dropped.
pub open spec fn spec_normalized_table(cols: Seq<(Seq<char>, u16, bool)>) -> Seq<(Seq<char>, u16, bool)> {
    if all_hidden(cols) {
        default_columns()
    } else {
        Seq::new(9, |k: int| normalized_column(cols, k))
    }
}

impl Default for TableConfig {
    fn default() -> (r: Self)
        ensures
            r@ == default_columns(),
    {
        let mut columns: Vec<TableColumnConfig> = Vec::new();
        let mut k: usize = 0;
        while k < COLUMN_COUNT
            invariant
                0 <= k <= COLUMN_COUNT,
                columns@.map_values(|c: TableColumnConfig| c@) == default_columns().take(k as int),
            decreases COLUMN_COUNT - k,
        {
            let (id, width, _, _) = column_spec(k);
            let ghost before = columns@.map_values(|c: TableColumnConfig| c@);
            columns.push(TableColumnConfig { id: id.to_owned(), width, visible: true });
            proof {
                assert(columns@.map_values(|c: TableColumnConfig| c@) =~= before.push((id@, width, true)));
                assert(default_columns()[k as int] == (id@, width, true));
                assert(default_columns().take(k + 1) =~= default_columns().take(k as int).push((id@, width, true)));
            }
            k = k + 1;
        }
        proof {
            assert(default_columns().take(9) =~= default_columns());
        }
        TableConfig { columns }
    }
}

impl TableConfig {
    /// The first configured column with the id `id`.
    fn find(&self, id: &str) -> (r: Option<usize>)
        ensures
            match r {
                Some(i) => i < self.columns@.len() && configured(self@, id@) == Some(self@[i as int]),
                None => configured(self@, id@) is None,
            },
    {
        let ghost cols = self@;
        let mut i: usize = 0;
        while i < self.columns.len()
            invariant
                0 <= i <= self.columns@.len(),
                cols == self@,
                find_column(cols, id@, i as int) is None,
            decreases self.columns@.len() - i,
        {
            proof {
                assert(cols[i as int] == self.columns@[i as int]@);
            }
            if str_equal(self.columns[i].id.as_str(), id) {
                proof {
                    lemma_find_stays(cols, id@, i + 1, cols.len() as int);
                }
                return Some(i);
            }
            i = i + 1;
        }
        None
    }

    /// Brings the table to the known columns, in their order: widths within bounds, the
    /// message column always shown, and the defaults again if every column was hidden.
    pub fn normalized(self) -> (r: Self)
        ensures
            r@ == spec_normalized_table(self@),
    {
        let ghost cols = self@;
        let mut hidden = true;
        let mut k: usize = 0;
        while k < COLUMN_COUNT
            invariant
                0 <= k <= COLUMN_COUNT,
                cols == self@,
                hidden == forall|j: int| 0 <= j < k ==> (#[trigger] configured(cols, column_specs()[j].0) matches Some(c) && !c.2),
            decreases COLUMN_COUNT - k,
        {
            let (id, _, _, _) = column_spec(k);
            let this_hidden = match self.find(id) {
                Some(i) => !self.columns[i].visible,
                None => false,
            };
            proof {
                if hidden && this_hidden {
                    assert forall|j: int| 0 <= j < k + 1 implies (#[trigger] configured(cols, column_specs()[j].0) matches Some(c) && !c.2) by {
                        if j < k {
                        } else {
                            assert(column_specs()[j].0 == id@);
                        }
                    }
                }
                if !this_hidden {
                    assert(column_specs()[k as int].0 == id@);
                    assert(!(configured(cols, column_specs()[k as int].0) matches Some(c) && !c.2));
                }
            }
            hidden = hidden && this_hidden;
            k = k + 1;
        }
        if hidden {
            return TableConfig::default();
        }
        let mut columns: Vec<TableColumnConfig> = Vec::new();
        let mut k: usize = 0;
        while k < COLUMN_COUNT
            invariant
                0 <= k <= COLUMN_COUNT,
                cols == self@,
                !all_hidden(cols),
                columns@.map_values(|c: TableColumnConfig| c@) == Seq::new(9, |j: int| normalized_column(cols, j)).take(k as int),
            decreases COLUMN_COUNT - k,
        {
            let (id, default_width, min, max) = column_spec(k);
            let found = self.find(id);
            let width = match found {
                Some(i) => self.columns[i].width,
                None => default_width,
            };
            let visible = if str_equal(id, "message") {
                true
            } else {
                match found {
                    Some(i) => self.columns[i].visible,
                    None => true,
                }
            };
            let ghost before = columns@.map_values(|c: TableColumnConfig| c@);
            let column = TableColumnConfig { id: id.to_owned(), width: clamp_u16(width, min, max), visible };
            proof {
                assert(column@ == normalized_column(cols, k as int));
            }
            columns.push(column);
            proof {
                let all = Seq::new(9, |j: int| normalized_column(cols, j));
                assert(columns@.map_values(|c: TableColumnConfig| c@) =~= before.push(column@));
                assert(all[k as int] == column@);
                assert(all.take(k + 1) =~= all.take(k as int).push(column@));
            }
            k = k + 1;
        }
        proof {
            assert(Seq::new(9, |j: int| normalized_column(cols, j)).take(9) =~= Seq::new(9, |j: int| normalized_column(cols, j)));
        }
        TableConfig { columns }
    }
}

proof fn lemma_find_stays(cols: Seq<(Seq<char>, u16, bool)>, id: Seq<char>, m: int, n: int)
    requires
        0 <= m <= n,
        find_column(cols, id, m) is Some,
    ensures
        find_column(cols, id, n) == find_column(cols, id, m),
    decreases n - m,
{
    if m < n {
        lemma_find_stays(cols, id, m, n - 1);
    }
}

/// The settings of the application.
#[derive(Debug)]
pub struct AppConfig {
    pub theme: ThemeMode,
    pub adb_path: Option<PathBuf>,
    pub storage_dir: Option<PathBuf>,
    pub encoding: String,
    pub font_size: u16,
    pub row_height: u16,
    pub table: TableConfig,
    pub recent_files: Vec<PathBuf>,
    pub last_filter: FilterSpec,
    pub command_buffers: Vec<String>,
    pub window: WindowConfig,
}

/// Whether `b` names a logcat buffer.
pub open spec fn is_buffer_name(b: Seq<char>) -> bool {
    b == "main"@ || b == "system"@ || b == "radio"@ || b == "events"@ || b == "crash"@
}

/// The buffer names among the first `n`, in order.
pub open spec fn buffer_names(b: Seq<Seq<char>>, n: int) -> Seq<Seq<char>>
    decreases n,
{
    if n <= 0 {
        Seq::empty()
    } else if is_buffer_name(b[n - 1]) {
        buffer_names(b, n - 1).push(b[n - 1])
    } else {
        buffer_names(b, n - 1)
    }
}

/// The buffers a configuration keeps: the known names among those given, or `main` when
/// that leaves none.
pub open spec fn spec_command_buffers(b: Seq<Seq<char>>) -> Seq<Seq<char>> {
    let kept = buffer_names(b, b.len() as int);
    if kept.len() == 0 {
        seq!["main"@]
    } else {
        kept
    }
}

/// Whether `p` is an empty path.
#[verifier::external_body]
fn path_is_empty(p: &PathBuf) -> bool {
    p.as_os_str().is_empty()
}

/// `PathBuf`'s `==`, which compares paths component by component as the platform reads
/// them. It is claimed only to find a path equal to itself.
#[verifier::external_body]
fn same_path(a: &PathBuf, b: &PathBuf) -> (r: bool)
    ensures
        a == b ==> r,
{
    a == b
}

/// Whether the indexes `idx` pick, in increasing order, entries of a list of length `n`.
pub open spec fn increasing_indexes(idx: Seq<int>, n: int) -> bool {
    &&& forall|i: int| 0 <= i < idx.len() ==> 0 <= #[trigger] idx[i] < n
    &&& forall|i: int, j: int| 0 <= i < j < idx.len() ==> idx[i] < idx[j]
}

/// `PathBuf::clone`, claimed to give an equal path.
#[verifier::external_body]
fn clone_path(p: &PathBuf) -> (r: PathBuf)
    ensures
        r == *p,
{
    p.clone()
}

/// The recent files to keep: at most ten, in order, skipping empty paths and repeats.
fn normalize_recent_files(files: Vec<PathBuf>) -> (r: Vec<PathBuf>)
    ensures
        r@.len() <= 10,
        exists|idx: Seq<int>| #![trigger increasing_indexes(idx, files@.len() as int)]
            increasing_indexes(idx, files@.len() as int) && idx.len() == r@.len()
            && forall|i: int| 0 <= i < r@.len() ==> r@[i] == files@[#[trigger] idx[i]],
        forall|i: int, j: int| 0 <= i < j < r@.len() ==> r@[i] != r@[j],
{
    let mut out: Vec<PathBuf> = Vec::new();
    let ghost mut idx: Seq<int> = Seq::empty();
    let mut i: usize = 0;
    let n = files.len();
    while i < n && out.len() < 10
        invariant
            0 <= i <= n,
            n == files@.len(),
            out@.len() <= 10,
            increasing_indexes(idx, files@.len() as int),
            idx.len() == out@.len(),
            forall|k: int| 0 <= k < idx.len() ==> idx[k] < i,
            forall|k: int| 0 <= k < out@.len() ==> out@[k] == files@[#[trigger] idx[k]],
            forall|a: int, b: int| 0 <= a < b < out@.len() ==> out@[a] != out@[b],
        decreases n - i,
    {
        let file = &files[i];
        if !path_is_empty(file) {
            let mut seen = false;
            let mut k: usize = 0;
            while k < out.len()
                invariant
                    0 <= k <= out@.len(),
                    !seen ==> forall|j: int| 0 <= j < k ==> out@[j] != files@[i as int],
                    *file == files@[i as int],
                decreases out@.len() - k,
            {
                if same_path(&out[k], file) {
                    seen = true;
                }
                k = k + 1;
            }
            if !seen {
                let ghost before = out@;
                out.push(clone_path(file));
                proof {
                    idx = idx.push(i as int);
                    assert forall|a: int, b: int| 0 <= a < b < out@.len() implies out@[a] != out@[b] by {
                        if b < before.len() {
                            assert(out@[a] == before[a] && out@[b] == before[b]);
                        }
                    }
                }
            }
        }
        i = i + 1;
    }
    proof {
        assert(increasing_indexes(idx, files@.len() as int));
    }
    out
}

/// What the recent-file list keeps of `files`: at most ten paths, in their order, no two
/// equal.
pub open spec fn kept_recent_files(r: Seq<PathBuf>, files: Seq<PathBuf>) -> bool {
    &&& r.len() <= 10
    &&& exists|idx: Seq<int>| #![trigger increasing_indexes(idx, files.len() as int)]
        increasing_indexes(idx, files.len() as int) && idx.len() == r.len()
        && forall|i: int| 0 <= i < r.len() ==> r[i] == files[#[trigger] idx[i]]
    &&& forall|i: int, j: int| 0 <= i < j < r.len() ==> r[i] != r[j]
}

fn keep_buffer_names(buffers: &Vec<String>) -> (r: Vec<String>)
    ensures
        r@.map_values(|b: String| b@) == spec_command_buffers(buffers@.map_values(|b: String| b@)),
{
    let ghost b = buffers@.map_values(|x: String| x@);
    let mut kept: Vec<String> = Vec::new();
    let mut i: usize = 0;
    while i < buffers.len()
        invariant
            0 <= i <= buffers@.len(),
            b == buffers@.map_values(|x: String| x@),
            kept@.map_values(|x: String| x@) == buffer_names(b, i as int),
        decreases buffers@.len() - i,
    {
        let name = buffers[i].as_str();
        proof {
            assert(b[i as int] == name@);
        }
        if str_equal(name, "main") || str_equal(name, "system") || str_equal(name, "radio") || str_equal(name, "events")
            || str_equal(name, "crash") {
            let ghost before = kept@.map_values(|x: String| x@);
            kept.push(buffers[i].clone());
            proof {
                assert(kept@.map_values(|x: String| x@) =~= before.push(name@));
            }
        }
        i = i + 1;
    }
    if kept.len() == 0 {
        let mut main: Vec<String> = Vec::new();
        main.push("main".to_owned());
        proof {
            assert(main@.map_values(|x: String| x@) =~= seq!["main"@]);
        }
        return main;
    }
    kept
}

impl Default for AppConfig {
    fn default() -> (r: Self)
        ensures
            r.theme == ThemeMode::Light,
            r.adb_path is None,
            r.storage_dir is None,
            r.encoding@ == "UTF-8"@,
            r.font_size == 13,
            r.row_height == 20,
            r.table@ == default_columns(),
            r.recent_files@.len() == 0,
            r.command_buffers@.map_values(|b: String| b@) == seq!["main"@],
            r.window == (WindowConfig { width: 1180, height: 720 }),
    {
        let mut command_buffers: Vec<String> = Vec::new();
        command_buffers.push("main".to_owned());
        proof {
            assert(command_buffers@.map_values(|b: String| b@) =~= seq!["main"@]);
        }
        AppConfig {
            theme: ThemeMode::Light,
            adb_path: None,
            storage_dir: None,
            encoding: "UTF-8".to_owned(),
            font_size: 13,
            row_height: 20,
            table: TableConfig::default(),
            recent_files: Vec::new(),
            last_filter: FilterSpec::default(),
            command_buffers,
            window: WindowConfig::default(),
        }
    }
}

impl AppConfig {
    /// Brings every setting within what the application supports: a known encoding name,
    /// font size 10 to 20, row height 16 to 32, the known table columns, at most ten distinct
    /// recent files, known logcat buffers (`main` when none), and a window of 960 to 3840 by
    /// 560 to 2160.
    pub fn normalized(self) -> (r: Self)
        ensures
            r.theme == self.theme,
            r.adb_path == self.adb_path,
            r.storage_dir == self.storage_dir,
            r.encoding@ == spec_config_label(spec_from_config(self.encoding@)),
            r.font_size == spec_clamp(self.font_size, 10, 20),
            r.row_height == spec_clamp(self.row_height, 16, 32),
            r.table@ == spec_normalized_table(self.table@),
            kept_recent_files(r.recent_files@, self.recent_files@),
            r.last_filter == self.last_filter,
            r.command_buffers@.map_values(|b: String| b@) == spec_command_buffers(
                self.command_buffers@.map_values(|b: String| b@),
            ),
            r.window == (WindowConfig {
                width: spec_clamp(self.window.width, 960, 3840),
                height: spec_clamp(self.window.height, 560, 2160),
            }),
    {
        let encoding = TextEncoding::from_config(self.encoding.as_str()).config_label().to_owned();
        let command_buffers = keep_buffer_names(&self.command_buffers);
        let AppConfig {
            theme,
            adb_path,
            storage_dir,
            encoding: _,
            font_size,
            row_height,
            table,
            recent_files,
            last_filter,
            command_buffers: _,
            window,
        } = self;
        AppConfig {
            theme,
            adb_path,
            storage_dir,
            encoding,
            font_size: clamp_u16(font_size, 10, 20),
            row_height: clamp_u16(row_height, 16, 32),
            table: table.normalized(),
            recent_files: normalize_recent_files(recent_files),
            last_filter,
            command_buffers,
            window: WindowConfig {
                width: clamp_u16(window.width, 960, 3840),
                height: clamp_u16(window.height, 560, 2160),
            },
        }
    }
}

proof fn lemma_column_ids_distinct()
    ensures
        forall|j: int, k: int| 0 <= j < 9 && 0 <= k < 9 && j != k ==> (#[trigger] column_specs()[j]).0 != (#[trigger] column_specs()[k]).0,
        column_specs()[8].0 == "message"@,
        forall|k: int| 0 <= k < 8 ==> (#[trigger] column_specs()[k]).0 != "message"@,
        forall|k: int| 0 <= k < 9 ==> (#[trigger] column_specs()[k]).2 <= column_specs()[k].1 <= column_specs()[k].3,
{
    reveal_strlit("bookmark");
    reveal_strlit("lineNo");
    reveal_strlit("date");
    reveal_strlit("time");
    reveal_strlit("level");
    reveal_strlit("pid");
    reveal_strlit("tid");
    reveal_strlit("tag");
    reveal_strlit("message");
    let ids = Seq::new(9, |k: int| column_specs()[k].0);
    assert(ids[2][0] != ids[3][0]);
    assert(ids[5][0] != ids[6][0]);
    assert(ids[5][0] != ids[7][0]);
    assert(ids[6][1] != ids[7][1]);
    assert forall|j: int, k: int| 0 <= j < 9 && 0 <= k < 9 && j != k implies column_specs()[j].0 != column_specs()[k].0 by {
        assert(ids[j] == column_specs()[j].0 && ids[k] == column_specs()[k].0);
        if ids[j].len() == ids[k].len() {
            if (j == 2 && k == 3) || (j == 3 && k == 2) {
                assert(ids[j][0] != ids[k][0]);
            } else if (j == 5 && k == 6) || (j == 6 && k == 5) || (j == 5 && k == 7) || (j == 7 && k == 5) {
                assert(ids[j][0] != ids[k][0]);
            } else {
                assert(ids[j][1] != ids[k][1]);
            }
        }
    }
}

/// In a table whose columns carry the known ids in order, each known id finds its own
/// column.
proof fn lemma_configured_in_order(r: Seq<(Seq<char>, u16, bool)>, k: int)
    requires
        r.len() == 9,
        forall|j: int| 0 <= j < 9 ==> (#[trigger] r[j]).0 == column_specs()[j].0,
        0 <= k < 9,
    ensures
        configured(r, column_specs()[k].0) == Some(r[k]),
{
    lemma_column_ids_distinct();
    lemma_find_none_before(r, k, k);
    assert(find_column(r, column_specs()[k].0, k + 1) == Some(r[k]));
    lemma_find_stays(r, column_specs()[k].0, k + 1, 9);
}

proof fn lemma_find_none_before(r: Seq<(Seq<char>, u16, bool)>, k: int, n: int)
    requires
        r.len() == 9,
        forall|j: int| 0 <= j < 9 ==> (#[trigger] r[j]).0 == column_specs()[j].0,
        forall|j: int, i: int| 0 <= j < 9 && 0 <= i < 9 && j != i ==> column_specs()[j].0 != column_specs()[i].0,
        0 <= n <= k < 9,
    ensures
        find_column(r, column_specs()[k].0, n) is None,
    decreases n,
{
    if n > 0 {
        lemma_find_none_before(r, k, n - 1);
        assert(r[n - 1].0 != column_specs()[k].0);
    }
}

/// Normalizing a table twice gives what normalizing it once gives.
pub proof fn lemma_table_normalization_idempotent(cols: Seq<(Seq<char>, u16, bool)>)
    ensures
        spec_normalized_table(spec_normalized_table(cols)) == spec_normalized_table(cols),
{
    lemma_column_ids_distinct();
    let r = spec_normalized_table(cols);
    assert(r.len() == 9);
    assert forall|j: int| 0 <= j < 9 implies (#[trigger] r[j]).0 == column_specs()[j].0 by {}
    // The message column shows, so the normalized table is never all hidden.
    lemma_configured_in_order(r, 8);
    assert(r[8].2);
    assert(!all_hidden(r));
    assert forall|k: int| 0 <= k < 9 implies #[trigger] normalized_column(r, k) == r[k] by {
        lemma_configured_in_order(r, k);
    }
    assert(spec_normalized_table(r) =~= r);
}

/// Keeping the known buffers of a list that holds only known buffers keeps them all.
proof fn lemma_buffer_names_of_known(b: Seq<Seq<char>>, n: int)
    requires
        0 <= n <= b.len(),
        forall|i: int| 0 <= i < b.len() ==> is_buffer_name(#[trigger] b[i]),
    ensures
        buffer_names(b, n) == b.take(n),
    decreases n,
{
    if n > 0 {
        lemma_buffer_names_of_known(b, n - 1);
        assert(b.take(n) =~= b.take(n - 1).push(b[n - 1]));
    } else {
        assert(b.take(0) =~= Seq::<Seq<char>>::empty());
    }
}

proof fn lemma_buffer_names_are_known(b: Seq<Seq<char>>, n: int)
    requires
        0 <= n <= b.len(),
    ensures
        forall|i: int| 0 <= i < buffer_names(b, n).len() ==> is_buffer_name(#[trigger] buffer_names(b, n)[i]),
    decreases n,
{
    if n > 0 {
        lemma_buffer_names_are_known(b, n - 1);
        let prev = buffer_names(b, n - 1);
        let cur = buffer_names(b, n);
        assert forall|i: int| 0 <= i < cur.len() implies is_buffer_name(#[trigger] cur[i]) by {
            if i < prev.len() {
                assert(cur[i] == prev[i]);
            }
        }
    }
}

/// Normalizing settings that are already normalized changes nothing: the table, the logcat
/// buffers, the encoding name, the font size, the row height and the window size all stay.
pub proof fn lemma_normalized_settings_are_stable(
    cols: Seq<(Seq<char>, u16, bool)>,
    buffers: Seq<Seq<char>>,
    encoding: Seq<char>,
    font_size: u16,
    row_height: u16,
    width: u16,
    height: u16,
)
    ensures
        spec_normalized_table(spec_normalized_table(cols)) == spec_normalized_table(cols),
        spec_command_buffers(spec_command_buffers(buffers)) == spec_command_buffers(buffers),
        spec_config_label(spec_from_config(spec_config_label(spec_from_config(encoding)))) == spec_config_label(
            spec_from_config(encoding),
        ),
        spec_clamp(spec_clamp(font_size, 10, 20), 10, 20) == spec_clamp(font_size, 10, 20),
        spec_clamp(spec_clamp(row_height, 16, 32), 16, 32) == spec_clamp(row_height, 16, 32),
        spec_clamp(spec_clamp(width, 960, 3840), 960, 3840) == spec_clamp(width, 960, 3840),
        spec_clamp(spec_clamp(height, 560, 2160), 560, 2160) == spec_clamp(height, 560, 2160),
{
    lemma_table_normalization_idempotent(cols);
    crate::encoding::lemma_config_label_round_trip(spec_from_config(encoding));
    let once = spec_command_buffers(buffers);
    lemma_buffer_names_are_known(buffers, buffers.len() as int);
    reveal_strlit("main");
    assert(is_buffer_name("main"@));
    assert forall|i: int| 0 <= i < once.len() implies is_buffer_name(#[trigger] once[i]) by {}
    lemma_buffer_names_of_known(once, once.len() as int);
    assert(once.take(once.len() as int) =~= once);
}

} // verus!
