//! The lists of the settings: their columns, cells and rows.

use crate::aliases;
use crate::aliases::Environment;
use crate::index_roots;
use crate::places;
use crate::query_rules::QueryLaunchRule;
use crate::scoring;
use crate::scoring_rules;
use crate::scoring_text;
use crate::scoring_text::{ScoringRuleEntry, ScoringRuleKind};
use crate::text;
use crate::types::IndexRoot;
use crate::wording;
use crate::wording::Wording;
use vstd::prelude::*;

verus! {

// ---------------------------------------------------------------------------
// Columns
// ---------------------------------------------------------------------------

/// What a column holds.
#[derive(Clone, Copy, Debug, PartialEq, Eq, Structural)]
pub enum ColumnRole {
    Normal,
    DefaultValue,
}

/// A column of a list.
#[derive(Debug, PartialEq, Eq)]
pub struct ColumnDef {
    pub header: String,
    pub width: i32,
    pub editable: bool,
    pub role: ColumnRole,
}

/// The header of a column and its width.
#[derive(Debug, PartialEq, Eq)]
pub struct ColumnText {
    pub header: String,
    pub width: i32,
}

impl ColumnDef {
    /// A column of values.
    pub fn normal(header: &str, width: i32, editable: bool) -> (r: ColumnDef)
        ensures
            r.header@ == header@,
            r.width == width,
            r.editable == editable,
            r.role == ColumnRole::Normal,
    {
        ColumnDef { header: header.to_owned(), width, editable, role: ColumnRole::Normal }
    }

    /// A column of the values that come with the program.
    pub fn default_value(header: &str, width: i32) -> (r: ColumnDef)
        ensures
            r.header@ == header@,
            r.width == width,
            !r.editable,
            r.role == ColumnRole::DefaultValue,
    {
        ColumnDef {
            header: header.to_owned(),
            width,
            editable: false,
            role: ColumnRole::DefaultValue,
        }
    }
}

/// A page of the settings.
#[derive(Clone, Copy, Debug, PartialEq, Eq, Structural)]
pub enum SettingsPage {
    General,
    SearchFolders,
    QueryLaunchRules,
    PluginAliases,
    HeuristicScoring,
    PatternScoring,
}

/// Which columns of a page can be edited; none where a column holds the values that come
/// with the program.
pub open spec fn page_layout(page: SettingsPage) -> Seq<Option<bool>> {
    match page {
        SettingsPage::SearchFolders => seq![Some(true), Some(true), Some(true), Some(true), None],
        SettingsPage::QueryLaunchRules => seq![Some(false), Some(false)],
        SettingsPage::PluginAliases => seq![Some(false), Some(true), None],
        SettingsPage::HeuristicScoring => seq![Some(false), Some(true), Some(false), None],
        SettingsPage::PatternScoring => seq![Some(true), Some(true), Some(true), None],
        SettingsPage::General => seq![],
    }
}

/// A column is laid out so.
pub open spec fn is_column(column: ColumnDef, given: ColumnText, editable: Option<bool>) -> bool {
    &&& column.header@ == given.header@
    &&& column.width == given.width
    &&& match editable {
        Some(can) => column.editable == can && column.role == ColumnRole::Normal,
        None => !column.editable && column.role == ColumnRole::DefaultValue,
    }
}

/// Adds a column.
fn add_column(columns: &mut Vec<ColumnDef>, texts: &[ColumnText], editable: Option<bool>)
    requires
        old(columns)@.len() < texts@.len(),
    ensures
        final(columns)@.len() == old(columns)@.len() + 1,
        final(columns)@.drop_last() == old(columns)@,
        is_column(final(columns)@.last(), texts@[old(columns)@.len() as int], editable),
{
    let given = &texts[columns.len()];
    columns.push(
        match editable {
            Some(can) => ColumnDef::normal(given.header.as_str(), given.width, can),
            None => ColumnDef::default_value(given.header.as_str(), given.width),
        },
    );
    proof {
        assert(columns@.drop_last() =~= old(columns)@);
    }
}

/// The columns of a page, with their headers and widths.
pub fn page_columns(page: SettingsPage, texts: &[ColumnText]) -> (r: Vec<ColumnDef>)
    requires
        page_layout(page).len() <= texts@.len(),
    ensures
        r@.len() == page_layout(page).len(),
        forall|i: int|
            0 <= i < r@.len() ==> is_column(#[trigger] r@[i], texts@[i], page_layout(page)[i]),
{
    let mut layout: Vec<Option<bool>> = Vec::new();
    match page {
        SettingsPage::SearchFolders => {
            layout.push(Some(true));
            layout.push(Some(true));
            layout.push(Some(true));
            layout.push(Some(true));
            layout.push(None);
        },
        SettingsPage::QueryLaunchRules => {
            layout.push(Some(false));
            layout.push(Some(false));
        },
        SettingsPage::PluginAliases => {
            layout.push(Some(false));
            layout.push(Some(true));
            layout.push(None);
        },
        SettingsPage::HeuristicScoring => {
            layout.push(Some(false));
            layout.push(Some(true));
            layout.push(Some(false));
            layout.push(None);
        },
        SettingsPage::PatternScoring => {
            layout.push(Some(true));
            layout.push(Some(true));
            layout.push(Some(true));
            layout.push(None);
        },
        SettingsPage::General => {},
    }
    proof {
        assert(layout@ =~= page_layout(page));
    }
    let mut columns: Vec<ColumnDef> = Vec::new();
    let mut i: usize = 0;
    while i < layout.len()
        invariant
            i <= layout.len() <= texts@.len(),
            columns@.len() == i,
            forall|k: int| 0 <= k < i ==> is_column(#[trigger] columns@[k], texts@[k], layout@[k]),
        decreases layout.len() - i,
    {
        let ghost before = columns@;
        add_column(&mut columns, texts, layout[i]);
        proof {
            assert forall|k: int| 0 <= k < i + 1 implies is_column(
                #[trigger] columns@[k],
                texts@[k],
                layout@[k],
            ) by {
                if k < i {
                    assert(columns@.drop_last()[k] == before[k]);
                }
            }
        }
        i += 1;
    }
    columns
}

/// The columns of a page.
pub fn columns_for_page(page: SettingsPage, texts: &[ColumnText]) -> (r: Vec<ColumnDef>)
    requires
        page_layout(page).len() <= texts@.len(),
    ensures
        r@.len() == page_layout(page).len(),
        forall|i: int|
            0 <= i < r@.len() ==> is_column(#[trigger] r@[i], texts@[i], page_layout(page)[i]),
{
    page_columns(page, texts)
}

/// The headers and widths of the columns of a page.
pub fn column_defs_for_page(page: SettingsPage, texts: &[ColumnText]) -> (r: Vec<ColumnText>)
    requires
        page_layout(page).len() <= texts@.len(),
    ensures
        r@.len() == page_layout(page).len(),
        forall|i: int|
            0 <= i < r@.len() ==> (#[trigger] r@[i]).header@ == texts@[i].header@ && r@[i].width
                == texts@[i].width,
{
    let columns = columns_for_page(page, texts);
    let mut out: Vec<ColumnText> = Vec::new();
    let mut i: usize = 0;
    while i < columns.len()
        invariant
            i <= columns.len(),
            columns@.len() <= texts@.len(),
            columns@.len() == page_layout(page).len(),
            forall|k: int|
                0 <= k < columns@.len() ==> is_column(
                    #[trigger] columns@[k],
                    texts@[k],
                    page_layout(page)[k],
                ),
            out@.len() == i,
            forall|k: int|
                0 <= k < i ==> (#[trigger] out@[k]).header@ == texts@[k].header@ && out@[k].width
                    == texts@[k].width,
        decreases columns.len() - i,
    {
        proof {
            assert(is_column(columns@[i as int], texts@[i as int], page_layout(page)[i as int]));
        }
        out.push(ColumnText { header: columns[i].header.clone(), width: columns[i].width });
        i += 1;
    }
    out
}

/// What can be done on a page.
#[derive(Clone, Copy, Debug, PartialEq, Eq, Structural)]
pub struct PageAbilities {
    pub multi_select: bool,
    pub toggle: bool,
    pub add_rows: bool,
    pub delete_rows: bool,
    pub reset_default: bool,
    pub move_rows: bool,
    pub modifier_help: bool,
}

/// What can be done on a page with a list.
pub fn page_abilities(page: SettingsPage) -> (r: PageAbilities)
    ensures
        r.multi_select,
        r.toggle == (page == SettingsPage::SearchFolders || page == SettingsPage::HeuristicScoring
            || page == SettingsPage::PatternScoring),
        r.add_rows == (page == SettingsPage::SearchFolders || page == SettingsPage::PatternScoring),
        r.delete_rows == (page == SettingsPage::SearchFolders || page
            == SettingsPage::QueryLaunchRules || page == SettingsPage::PatternScoring),
        r.reset_default == (page == SettingsPage::SearchFolders || page
            == SettingsPage::PluginAliases || page == SettingsPage::HeuristicScoring || page
            == SettingsPage::PatternScoring),
        r.move_rows == r.add_rows,
        r.modifier_help == r.add_rows,
{
    let folders = matches!(page, SettingsPage::SearchFolders);
    let rules = matches!(page, SettingsPage::QueryLaunchRules);
    let names = matches!(page, SettingsPage::PluginAliases);
    let heuristics = matches!(page, SettingsPage::HeuristicScoring);
    let patterns = matches!(page, SettingsPage::PatternScoring);
    PageAbilities {
        multi_select: true,
        toggle: folders || heuristics || patterns,
        add_rows: folders || patterns,
        delete_rows: folders || rules || patterns,
        reset_default: folders || names || heuristics || patterns,
        move_rows: folders || patterns,
        modifier_help: folders || patterns,
    }
}

// ---------------------------------------------------------------------------
// Styles of cells
// ---------------------------------------------------------------------------

/// How a cell looks.
#[derive(Clone, Copy, Debug, PartialEq, Eq, Structural)]
pub enum CellStyle {
    Normal,
    ReadonlyDefault,
    ModifiedEditable,
}

/// The number that stands for a style.
pub open spec fn style_code(style: CellStyle) -> nat {
    match style {
        CellStyle::Normal => 0,
        CellStyle::ReadonlyDefault => 1,
        CellStyle::ModifiedEditable => 2,
    }
}

impl CellStyle {
    /// The number that stands for a style.
    pub fn encode(self) -> (r: usize)
        ensures
            r == style_code(self),
    {
        match self {
            CellStyle::Normal => 0,
            CellStyle::ReadonlyDefault => 1,
            CellStyle::ModifiedEditable => 2,
        }
    }
}

/// The styles of a row in one number, to the base of four, the first column lowest.
pub open spec fn packed(styles: Seq<CellStyle>) -> nat
    decreases styles.len(),
{
    if styles.len() == 0 {
        0
    } else {
        style_code(styles[0]) + 4 * packed(styles.skip(1))
    }
}

/// A digit of a number to the base of four.
pub open spec fn digit(n: nat, column: nat) -> nat
    decreases column,
{
    if column == 0 {
        n % 4
    } else {
        digit(n / 4, (column - 1) as nat)
    }
}

/// A power of four.
pub open spec fn pow4(n: nat) -> nat
    decreases n,
{
    if n == 0 {
        1
    } else {
        4 * pow4((n - 1) as nat)
    }
}

proof fn lemma_packed_fits(styles: Seq<CellStyle>)
    ensures
        packed(styles) < pow4(styles.len()),
    decreases styles.len(),
{
    if styles.len() > 0 {
        lemma_packed_fits(styles.skip(1));
    }
}

proof fn lemma_pow4_grows(a: nat, b: nat)
    requires
        a <= b,
    ensures
        1 <= pow4(a) <= pow4(b),
    decreases b,
{
    if a < b {
        lemma_pow4_grows(a, (b - 1) as nat);
    } else if a > 0 {
        lemma_pow4_grows((a - 1) as nat, (b - 1) as nat);
    }
}

proof fn lemma_word_of_fours()
    ensures
        pow4((usize::BITS / 2) as nat) == usize::MAX + 1,
{
    reveal_with_fuel(pow4, 33);
    if usize::BITS == 32 {
        assert(pow4(16) == 0x1_0000_0000);
    } else {
        assert(usize::BITS == 64);
        assert(pow4(32) == 0x1_0000_0000_0000_0000);
    }
}

/// The digits of packed styles are the numbers of the styles.
pub proof fn lemma_digit_is_style(styles: Seq<CellStyle>, column: int)
    requires
        0 <= column < styles.len(),
    ensures
        digit(packed(styles), column as nat) == style_code(styles[column]),
    decreases column,
{
    if column > 0 {
        lemma_digit_is_style(styles.skip(1), column - 1);
        assert(packed(styles) / 4 == packed(styles.skip(1)));
    }
}

/// The number of columns whose styles fit in one number.
pub open spec fn packed_columns(count: nat) -> int {
    if count < usize::BITS / 2 {
        count as int
    } else {
        (usize::BITS / 2) as int
    }
}

/// The number that the styles of a row are packed into.
pub open spec fn packed_param(styles: Seq<CellStyle>) -> isize {
    (packed(styles.take(packed_columns(styles.len()))) as usize) as isize
}

/// Packs the styles of a row.
pub fn encode_cell_styles(styles: &[CellStyle]) -> (r: isize)
    ensures
        r == packed_param(styles@),
{
    let most: usize = (usize::BITS / 2) as usize;
    let n: usize = if styles.len() < most {
        styles.len()
    } else {
        most
    };
    let mut value: usize = 0;
    let mut i: usize = n;
    let ghost kept = styles@.take(n as int);
    proof {
        assert(kept.skip(n as int) =~= Seq::<CellStyle>::empty());
    }
    while i > 0
        invariant
            i <= n <= styles.len(),
            n <= most == usize::BITS / 2,
            kept == styles@.take(n as int),
            value == packed(kept.skip(i as int)),
        decreases i,
    {
        proof {
            assert(kept.skip(i - 1).skip(1) =~= kept.skip(i as int));
            assert(kept.skip(i - 1)[0] == styles@[i - 1]);
            lemma_packed_fits(kept.skip(i - 1));
            lemma_pow4_grows((n - (i - 1)) as nat, most as nat);
            lemma_word_of_fours();
        }
        value = styles[i - 1].encode() + 4 * value;
        i -= 1;
    }
    proof {
        assert(kept.skip(0) =~= kept);
    }
    #[verifier::truncate]
    (value as isize)
}

/// The style in a packed number of a column.
pub open spec fn style_in(n: nat, column: nat) -> CellStyle {
    if column >= usize::BITS / 2 {
        CellStyle::Normal
    } else if digit(n, column) == 1 {
        CellStyle::ReadonlyDefault
    } else if digit(n, column) == 2 {
        CellStyle::ModifiedEditable
    } else {
        CellStyle::Normal
    }
}

/// Unpacks the style of a column.
pub fn decode_cell_style(packed_styles: isize, column: usize) -> (r: CellStyle)
    ensures
        r == style_in((packed_styles as usize) as nat, column as nat),
{
    let most: usize = (usize::BITS / 2) as usize;
    if column >= most {
        return CellStyle::Normal;
    }
    let mut value: usize = #[verifier::truncate]
    (packed_styles as usize);
    let ghost whole = value as nat;
    let mut i: usize = 0;
    while i < column
        invariant
            i <= column,
            digit(whole, column as nat) == digit(value as nat, (column - i) as nat),
        decreases column - i,
    {
        value = value / 4;
        i += 1;
    }
    let code: usize = value % 4;
    if code == 1 {
        CellStyle::ReadonlyDefault
    } else if code == 2 {
        CellStyle::ModifiedEditable
    } else {
        CellStyle::Normal
    }
}

/// The style of a column is unpacked as it was packed, where it fits.
pub proof fn lemma_style_round_trip(styles: Seq<CellStyle>, column: int)
    requires
        0 <= column < packed_columns(styles.len()),
    ensures
        ({
            let number = packed_param(styles);
            style_in((number as usize) as nat, column as nat) == styles[column]
        }),
{
    let kept = styles.take(packed_columns(styles.len()));
    lemma_packed_fits(kept);
    lemma_pow4_grows(kept.len(), (usize::BITS / 2) as nat);
    lemma_word_of_fours();
    let value = packed(kept) as usize;
    assert((value as isize) as usize == value) by (bit_vector);
    lemma_digit_is_style(kept, column);
}

/// The style of a cell by its column alone.
pub open spec fn base_style(columns: Seq<ColumnDef>, column: int) -> CellStyle {
    if 0 <= column < columns.len() && (columns[column].role == ColumnRole::DefaultValue
        || !columns[column].editable) {
        CellStyle::ReadonlyDefault
    } else {
        CellStyle::Normal
    }
}

/// The style of a cell by its column alone.
pub fn default_cell_style(columns: &[ColumnDef], column: usize) -> (r: CellStyle)
    ensures
        r == base_style(columns@, column as int),
{
    if column < columns.len() && (columns[column].role == ColumnRole::DefaultValue
        || !columns[column].editable) {
        CellStyle::ReadonlyDefault
    } else {
        CellStyle::Normal
    }
}

/// Whether a text differs from the one that comes with the program, but for white space
/// around it.
pub fn text_changed(current: &str, default: &str) -> (r: bool)
    ensures
        r == (text::trimmed(current@) != text::trimmed(default@)),
{
    let a = text::trim_text(current);
    let b = text::trim_text(default);
    !text::same_text(a.as_str(), b.as_str())
}

/// Whether a text differs from the one that comes with the program, but for white space
/// around it and the case of its letters.
pub fn folded_text_changed(current: &str, default: &str) -> (r: bool)
    ensures
        r == !text::same_ignoring_ascii_case(text::trimmed(current@), text::trimmed(default@)),
{
    let a = text::chars_of(current);
    let b = text::chars_of(default);
    !text::equal_ignoring_ascii_case(text::trim_chars(a.as_slice()), text::trim_chars(b.as_slice()))
}

/// The message after something was done.
pub fn status_message(wording: &Wording, action: &str) -> (r: String)
    ensures
        r@ == wording.said_with(
            "{}. {}"@,
            seq![wording.said(action@), wording.said("Click Save + Apply to persist."@)],
        ),
        wording.is_source() ==> r@ == action@ + ". "@ + "Click Save + Apply to persist."@,
{
    let values: Vec<String> = vec![
        wording.say(action),
        wording.say("Click Save + Apply to persist."),
    ];
    let ghost said = text::texts(values@);
    proof {
        assert(said =~= seq![
            wording.said(action@),
            wording.said("Click Save + Apply to persist."@),
        ]);
        if wording.is_source() {
            reveal_strlit("{}. {}");
            reveal_strlit("{}");
            reveal_strlit(". ");
            let none = Seq::<char>::empty();
            let rest = ". "@ + "{}"@;
            assert("{}. {}"@ =~= none + "{}"@ + rest);
            wording::lemma_filled_at("{}. {}"@, none, rest, said);
            wording::lemma_source_one(*wording, rest, ". "@, said[1]);
            assert(said.skip(1) =~= seq![said[1]]);
            assert(wording.said(rest) == rest);
            assert(none + said[0] + (". "@ + said[1]) =~= action@ + ". "@
                + "Click Save + Apply to persist."@);
        }
    }
    wording.say_with("{}. {}", values.as_slice())
}

// ---------------------------------------------------------------------------
// Search folders
// ---------------------------------------------------------------------------

/// The list of the search folders, with those that come with the program.
#[derive(Debug, PartialEq, Eq)]
pub struct SearchFoldersModel {
    pub roots: Vec<IndexRoot>,
    pub defaults: Vec<IndexRoot>,
}

/// The place of the folder that comes with the program for a folder.
pub open spec fn default_place(root: IndexRoot, defaults: Seq<IndexRoot>, from: int) -> Option<int>
    decreases defaults.len() - from,
{
    if from < 0 || from >= defaults.len() {
        None
    } else if text::same_ignoring_ascii_case(defaults[from].raw@, root.raw@) {
        Some(from)
    } else {
        default_place(root, defaults, from + 1)
    }
}

/// The text of a cell of a search folder.
pub open spec fn folder_cell(root: IndexRoot, defaults: Seq<IndexRoot>, column: usize) -> Seq<char> {
    if column == 0 {
        root.raw@
    } else if column == 1 {
        scoring::keywords_shown(text::texts(root.keywords@))
    } else if column == 2 {
        text::decimal(root.score as int)
    } else if column == 3 {
        index_roots::depth_shown(root.max_depth)
    } else if column == 4 {
        index_roots::default_value(root, defaults, 0)
    } else {
        Seq::empty()
    }
}

/// A search folder differs in a column from the one that comes with the program.
pub open spec fn folder_differs(root: IndexRoot, given: IndexRoot, column: usize) -> bool {
    if column == 0 {
        !text::same_ignoring_ascii_case(text::trimmed(root.raw@), text::trimmed(given.raw@))
    } else if column == 1 {
        text::texts(root.keywords@) != text::texts(given.keywords@)
    } else if column == 2 {
        root.score != given.score
    } else if column == 3 {
        root.max_depth != given.max_depth
    } else {
        false
    }
}

/// A search folder after a cell was edited. The text of the last column, a whole default
/// value, is read by the caller, who hands over the folder that it makes.
pub open spec fn folder_edited(
    after: IndexRoot,
    before: IndexRoot,
    column: usize,
    value: Seq<char>,
    default_read: Option<IndexRoot>,
    env: Environment,
) -> bool {
    if column == 0 {
        let raw = text::trimmed(value);
        &&& after.raw@ == raw
        &&& after.path matches Some(path) && path@ == aliases::expanded_path(raw, env)
        &&& after == (IndexRoot { raw: after.raw, path: after.path, ..before })
    } else if column == 1 {
        &&& text::texts(after.keywords@) == index_roots::keywords_in(value)
        &&& after == (IndexRoot { keywords: after.keywords, ..before })
    } else if column == 2 {
        &&& after.score == (match index_roots::parsed_i32(value) {
            Some(n) => n,
            None => before.score as int,
        })
        &&& after == (IndexRoot { score: after.score, ..before })
    } else if column == 3 {
        &&& after.max_depth == (match index_roots::parsed_isize(text::trimmed(value)) {
            Some(n) => index_roots::depth_of(n),
            None => before.max_depth as int,
        })
        &&& after == (IndexRoot { max_depth: after.max_depth, ..before })
    } else if column == 4 {
        after == (match default_read {
            Some(read) => read,
            None => before,
        })
    } else {
        after == before
    }
}

/// Where a search folder comes with the program.
fn find_default(root: &IndexRoot, defaults: &Vec<IndexRoot>) -> (r: Option<usize>)
    ensures
        match r {
            Some(i) => i < defaults@.len() && default_place(*root, defaults@, 0) == Some(i as int),
            None => default_place(*root, defaults@, 0) is None,
        },
{
    let mut i: usize = 0;
    while i < defaults.len()
        invariant
            i <= defaults.len(),
            default_place(*root, defaults@, 0) == default_place(*root, defaults@, i as int),
        decreases defaults.len() - i,
    {
        if aliases::same_name(defaults[i].raw.as_str(), root.raw.as_str()) {
            return Some(i);
        }
        i += 1;
    }
    None
}

impl SearchFoldersModel {
    /// The number of rows.
    pub fn row_count(&self) -> (r: usize)
        ensures
            r == self.roots@.len(),
    {
        self.roots.len()
    }

    /// Whether a row is switched on.
    pub fn is_row_enabled(&self, index: usize) -> (r: bool)
        ensures
            r == (index < self.roots@.len() && self.roots@[index as int].enabled),
    {
        index < self.roots.len() && self.roots[index].enabled
    }

    /// What a cell shows.
    pub open spec fn cell(&self, row: usize, column: usize) -> Seq<char> {
        if row < self.roots@.len() {
            folder_cell(self.roots@[row as int], self.defaults@, column)
        } else {
            Seq::empty()
        }
    }

    /// The text of a cell.
    pub fn cell_text(&self, row: usize, column: usize) -> (r: String)
        ensures
            r@ == self.cell(row, column),
    {
        if row < self.roots.len() {
            let root = &self.roots[row];
            if column == 0 {
                return root.raw.clone();
            } else if column == 1 {
                return scoring::search_folder_modifier_display(root.keywords.as_slice());
            } else if column == 2 {
                return text::decimal_i64(root.score as i64);
            } else if column == 3 {
                return index_roots::depth_display(root.max_depth);
            } else if column == 4 {
                return index_roots::default_index_root_value(root, self.defaults.as_slice());
            }
        }
        let none = String::new();
        proof {
            assert(none@ =~= Seq::<char>::empty());
        }
        none
    }

    /// Edits a cell. `default_read` is the folder that the text makes where it was entered
    /// in the column of the values that come with the program, if it makes one.
    pub fn set_cell_text(
        &mut self,
        row: usize,
        column: usize,
        value: &str,
        default_read: Option<IndexRoot>,
        env: &Environment,
    )
        ensures
            final(self).defaults == old(self).defaults,
            if row < old(self).roots@.len() {
                &&& final(self).roots@ == old(self).roots@.update(
                    row as int,
                    final(self).roots@[row as int],
                )
                &&& folder_edited(
                    final(self).roots@[row as int],
                    old(self).roots@[row as int],
                    column,
                    value@,
                    default_read,
                    *env,
                )
            } else {
                final(self).roots@ == old(self).roots@
            },
    {
        if row >= self.roots.len() {
            return;
        }
        let slot = &mut self.roots[row];
        if column == 0 {
            let raw = text::trim_text(value);
            slot.path = Some(aliases::expand_path(raw.as_str(), env));
            slot.raw = raw;
        } else if column == 1 {
            slot.keywords = index_roots::normalize_keywords(value);
        } else if column == 2 {
            let chars = text::chars_of(value);
            if let Some(n) = text::parse_i32(chars.as_slice()) {
                slot.score = n;
            }
        } else if column == 3 {
            let chars = text::chars_of(value);
            if let Some(n) = text::parse_isize(text::trim_chars(chars.as_slice())) {
                slot.max_depth = index_roots::normalize_search_depth(n);
            }
        } else if column == 4 {
            if let Some(read) = default_read {
                *slot = read;
            }
        }
        proof {
            assert(self.roots@ =~= old(self).roots@.update(row as int, self.roots@[row as int]));
        }
    }

    /// How a cell looks.
    pub open spec fn style(&self, row: usize, column: usize, columns: Seq<ColumnDef>) -> CellStyle {
        if base_style(columns, column as int) != CellStyle::Normal {
            base_style(columns, column as int)
        } else if row < self.roots@.len() {
            match default_place(self.roots@[row as int], self.defaults@, 0) {
                Some(i) => if folder_differs(
                    self.roots@[row as int],
                    self.defaults@[i],
                    column,
                ) {
                    CellStyle::ModifiedEditable
                } else {
                    CellStyle::Normal
                },
                None => CellStyle::Normal,
            }
        } else {
            CellStyle::Normal
        }
    }

    /// Finds how a cell looks.
    pub fn cell_style(&self, row: usize, column: usize, columns: &[ColumnDef]) -> (r: CellStyle)
        ensures
            r == self.style(row, column, columns@),
    {
        let base = default_cell_style(columns, column);
        if base != CellStyle::Normal {
            return base;
        }
        if row >= self.roots.len() {
            return CellStyle::Normal;
        }
        let root = &self.roots[row];
        match find_default(root, &self.defaults) {
            Some(i) => {
                let given = &self.defaults[i];
                let changed = if column == 0 {
                    folded_text_changed(root.raw.as_str(), given.raw.as_str())
                } else if column == 1 {
                    !text::same_texts(root.keywords.as_slice(), given.keywords.as_slice())
                } else if column == 2 {
                    root.score != given.score
                } else if column == 3 {
                    root.max_depth != given.max_depth
                } else {
                    false
                };
                if changed {
                    CellStyle::ModifiedEditable
                } else {
                    CellStyle::Normal
                }
            },
            None => CellStyle::Normal,
        }
    }

    /// Switches a row on or off. Tells whether there is such a row.
    pub fn toggle_row(&mut self, index: usize) -> (r: bool)
        ensures
            r == (index < old(self).roots@.len()),
            final(self).defaults == old(self).defaults,
            final(self).roots@ == (if r {
                old(self).roots@.update(
                    index as int,
                    IndexRoot {
                        enabled: !old(self).roots@[index as int].enabled,
                        ..old(self).roots@[index as int]
                    },
                )
            } else {
                old(self).roots@
            }),
            r ==> final(self).roots@[index as int].enabled != old(self).roots@[index as int].enabled,
            forall|i: int|
                0 <= i < old(self).roots@.len() && i != index ==> #[trigger] final(self).roots@[i]
                    == old(self).roots@[i],
    {
        if index >= self.roots.len() {
            return false;
        }
        let slot = &mut self.roots[index];
        slot.enabled = !slot.enabled;
        true
    }

    /// Deletes a row. A folder that comes with the program cannot be deleted.
    pub fn delete_row(&mut self, index: usize) -> (r: bool)
        ensures
            r == (index < old(self).roots@.len() && default_place(
                old(self).roots@[index as int],
                old(self).defaults@,
                0,
            ) is None),
            final(self).defaults == old(self).defaults,
            final(self).roots@ == (if r {
                old(self).roots@.remove(index as int)
            } else {
                old(self).roots@
            }),
    {
        if index >= self.roots.len() {
            return false;
        }
        if find_default(&self.roots[index], &self.defaults).is_some() {
            return false;
        }
        let _ = self.roots.remove(index);
        true
    }

    /// Sets a row to the folder that comes with the program.
    pub fn reset_row_to_default(&mut self, index: usize, env: &Environment) -> (r: bool)
        ensures
            r == (index < old(self).roots@.len() && default_place(
                old(self).roots@[index as int],
                old(self).defaults@,
                0,
            ) is Some),
            final(self).defaults == old(self).defaults,
            !r ==> final(self).roots@ == old(self).roots@,
            r ==> {
                let given = old(self).defaults@[default_place(
                    old(self).roots@[index as int],
                    old(self).defaults@,
                    0,
                )->0];
                let now = final(self).roots@[index as int];
                &&& final(self).roots@ == old(self).roots@.update(index as int, now)
                &&& now.path matches Some(path) && path@ == aliases::expanded_path(given.raw@, *env)
                &&& crate::types::same_root((IndexRoot { path: given.path, ..now }), given)
            },
    {
        if index >= self.roots.len() {
            return false;
        }
        match find_default(&self.roots[index], &self.defaults) {
            Some(i) => {
                let given = self.defaults[i].copy();
                let fresh = index_roots::normalized_index_root(given, env);
                self.roots.set(index, fresh);
                true
            },
            None => false,
        }
    }

    /// Swaps two rows.
    pub fn swap_rows(&mut self, a: usize, b: usize) -> (r: bool)
        ensures
            r == (a < old(self).roots@.len() && b < old(self).roots@.len() && a != b),
            final(self).defaults == old(self).defaults,
            final(self).roots@ == (if r {
                old(self).roots@.update(a as int, old(self).roots@[b as int]).update(
                    b as int,
                    old(self).roots@[a as int],
                )
            } else {
                old(self).roots@
            }),
            r ==> final(self).roots@[a as int] == old(self).roots@[b as int]
                && final(self).roots@[b as int] == old(self).roots@[a as int],
            forall|i: int|
                0 <= i < old(self).roots@.len() && i != a && i != b ==> #[trigger] final(self).roots@[i]
                    == old(self).roots@[i],
    {
        if a < self.roots.len() && b < self.roots.len() && a != b {
            let low: usize = if a < b {
                a
            } else {
                b
            };
            let high: usize = if a < b {
                b
            } else {
                a
            };
            let upper = self.roots.remove(high);
            let lower = self.roots.remove(low);
            self.roots.insert(low, upper);
            self.roots.insert(high, lower);
            proof {
                assert(self.roots@ =~= old(self).roots@.update(
                    a as int,
                    old(self).roots@[b as int],
                ).update(b as int, old(self).roots@[a as int]));
            }
            true
        } else {
            false
        }
    }

    /// The texts of all cells of a row.
    pub fn row_cells(&self, row: usize, columns: usize) -> (r: Vec<String>)
        ensures
            r@.len() == columns,
            forall|c: int|
                0 <= c < columns ==> (#[trigger] r@[c])@ == self.cell(row, c as usize),
    {
        let mut cells: Vec<String> = Vec::new();
        let mut c: usize = 0;
        while c < columns
            invariant
                c <= columns,
                cells@.len() == c,
                forall|i: int|
                    0 <= i < c ==> (#[trigger] cells@[i])@ == self.cell(row, i as usize),
            decreases columns - c,
        {
            cells.push(self.cell_text(row, c));
            c += 1;
        }
        cells
    }

    /// How the cells of a row look.
    pub open spec fn row_styles(&self, row: usize, columns: Seq<ColumnDef>) -> Seq<CellStyle> {
        Seq::new(columns.len(), |c: int| self.style(row, c as usize, columns))
    }

    /// Packs how the cells of a row look.
    pub fn row_style_param(&self, row: usize, columns: &[ColumnDef]) -> (r: isize)
        ensures
            r == packed_param(self.row_styles(row, columns@)),
    {
        let mut styles: Vec<CellStyle> = Vec::new();
        let mut c: usize = 0;
        while c < columns.len()
            invariant
                c <= columns.len(),
                styles@ == self.row_styles(row, columns@).take(c as int),
            decreases columns.len() - c,
        {
            styles.push(self.cell_style(row, c, columns));
            c += 1;
            proof {
                assert(styles@ =~= self.row_styles(row, columns@).take(c as int));
            }
        }
        proof {
            assert(styles@ =~= self.row_styles(row, columns@));
        }
        encode_cell_styles(styles.as_slice())
    }
}


// ---------------------------------------------------------------------------
// Launch rules
// ---------------------------------------------------------------------------

/// The list of the launch rules.
#[derive(Debug, PartialEq, Eq)]
pub struct QueryLaunchRulesModel {
    pub items: Vec<QueryLaunchRule>,
}

impl QueryLaunchRulesModel {
    /// The number of rows.
    pub fn row_count(&self) -> (r: usize)
        ensures
            r == self.items@.len(),
    {
        self.items.len()
    }

    /// What a cell shows.
    pub open spec fn cell(&self, row: usize, column: usize) -> Seq<char> {
        if row < self.items@.len() && column == 0 {
            self.items@[row as int].query@
        } else if row < self.items@.len() && column == 1 {
            self.items@[row as int].target@
        } else {
            Seq::empty()
        }
    }

    /// The text of a cell.
    pub fn cell_text(&self, row: usize, column: usize) -> (r: String)
        ensures
            r@ == self.cell(row, column),
    {
        if row < self.items.len() && column == 0 {
            return self.items[row].query.clone();
        }
        if row < self.items.len() && column == 1 {
            return self.items[row].target.clone();
        }
        let none = String::new();
        proof {
            assert(none@ =~= Seq::<char>::empty());
        }
        none
    }

    /// Deletes a row.
    pub fn delete_row(&mut self, index: usize) -> (r: bool)
        ensures
            r == (index < old(self).items@.len()),
            final(self).items@ == (if r {
                old(self).items@.remove(index as int)
            } else {
                old(self).items@
            }),
    {
        if index < self.items.len() {
            let _ = self.items.remove(index);
            true
        } else {
            false
        }
    }

    /// How a cell looks.
    pub open spec fn style(&self, row: usize, column: usize, columns: Seq<ColumnDef>) -> CellStyle {
        base_style(columns, column as int)
    }

    /// Finds how a cell looks.
    pub fn cell_style(&self, row: usize, column: usize, columns: &[ColumnDef]) -> (r: CellStyle)
        ensures
            r == self.style(row, column, columns@),
    {
        default_cell_style(columns, column)
    }

    /// The texts of all cells of a row.
    pub fn row_cells(&self, row: usize, columns: usize) -> (r: Vec<String>)
        ensures
            r@.len() == columns,
            forall|c: int|
                0 <= c < columns ==> (#[trigger] r@[c])@ == self.cell(row, c as usize),
    {
        let mut cells: Vec<String> = Vec::new();
        let mut c: usize = 0;
        while c < columns
            invariant
                c <= columns,
                cells@.len() == c,
                forall|i: int|
                    0 <= i < c ==> (#[trigger] cells@[i])@ == self.cell(row, i as usize),
            decreases columns - c,
        {
            cells.push(self.cell_text(row, c));
            c += 1;
        }
        cells
    }

    /// How the cells of a row look.
    pub open spec fn row_styles(&self, row: usize, columns: Seq<ColumnDef>) -> Seq<CellStyle> {
        Seq::new(columns.len(), |c: int| self.style(row, c as usize, columns))
    }

    /// Packs how the cells of a row look.
    pub fn row_style_param(&self, row: usize, columns: &[ColumnDef]) -> (r: isize)
        ensures
            r == packed_param(self.row_styles(row, columns@)),
    {
        let mut styles: Vec<CellStyle> = Vec::new();
        let mut c: usize = 0;
        while c < columns.len()
            invariant
                c <= columns.len(),
                styles@ == self.row_styles(row, columns@).take(c as int),
            decreases columns.len() - c,
        {
            styles.push(self.cell_style(row, c, columns));
            c += 1;
            proof {
                assert(styles@ =~= self.row_styles(row, columns@).take(c as int));
            }
        }
        proof {
            assert(styles@ =~= self.row_styles(row, columns@));
        }
        encode_cell_styles(styles.as_slice())
    }
}

// ---------------------------------------------------------------------------
// Names of plugins
// ---------------------------------------------------------------------------

/// The name by which a plugin is called, and the one that comes with the program.
#[derive(Debug, PartialEq, Eq)]
pub struct PluginAliasConfigEntry {
    pub id: String,
    pub name: String,
    pub alias: String,
    pub default_alias: String,
}

/// The list of the names of plugins.
#[derive(Debug, PartialEq, Eq)]
pub struct PluginAliasModel {
    pub entries: Vec<PluginAliasConfigEntry>,
}

/// The text of a cell of a plugin.
pub open spec fn plugin_cell(entry: PluginAliasConfigEntry, column: usize) -> Seq<char> {
    if column == 0 {
        entry.name@
    } else if column == 1 {
        entry.alias@
    } else if column == 2 {
        entry.default_alias@
    } else {
        Seq::empty()
    }
}

impl PluginAliasModel {
    /// The number of rows.
    pub fn row_count(&self) -> (r: usize)
        ensures
            r == self.entries@.len(),
    {
        self.entries.len()
    }

    /// What a cell shows.
    pub open spec fn cell(&self, row: usize, column: usize) -> Seq<char> {
        if row < self.entries@.len() {
            plugin_cell(self.entries@[row as int], column)
        } else {
            Seq::empty()
        }
    }

    /// The text of a cell.
    pub fn cell_text(&self, row: usize, column: usize) -> (r: String)
        ensures
            r@ == self.cell(row, column),
    {
        if row < self.entries.len() {
            let entry = &self.entries[row];
            if column == 0 {
                return entry.name.clone();
            } else if column == 1 {
                return entry.alias.clone();
            } else if column == 2 {
                return entry.default_alias.clone();
            }
        }
        let none = String::new();
        proof {
            assert(none@ =~= Seq::<char>::empty());
        }
        none
    }

    /// Edits a cell.
    pub fn set_cell_text(&mut self, row: usize, column: usize, value: &str)
        ensures
            final(self).entries@.len() == old(self).entries@.len(),
            forall|i: int|
                #![trigger final(self).entries@[i]]
                0 <= i < old(self).entries@.len() && i != row ==> final(self).entries@[i] == old(self).entries@[i],
            row < old(self).entries@.len() ==> final(self).entries@[row as int].id == old(self).entries@[row as int].id,
            row < old(self).entries@.len() ==> forall|c: usize| #[trigger]
                plugin_cell(final(self).entries@[row as int], c) == (if c == column && c <= 2 {
                    value@
                } else {
                    plugin_cell(old(self).entries@[row as int], c)
                }),
    {
        if row >= self.entries.len() {
            return;
        }
        let slot = &mut self.entries[row];
        if column == 0 {
            slot.name = value.to_owned();
        } else if column == 1 {
            slot.alias = value.to_owned();
        } else if column == 2 {
            slot.default_alias = value.to_owned();
        }
    }

    /// How a cell looks.
    pub open spec fn style(&self, row: usize, column: usize, columns: Seq<ColumnDef>) -> CellStyle {
        if base_style(columns, column as int) != CellStyle::Normal {
            base_style(columns, column as int)
        } else if row < self.entries@.len() && column == 1 && text::trimmed(
            self.entries@[row as int].alias@,
        ) != text::trimmed(self.entries@[row as int].default_alias@) {
            CellStyle::ModifiedEditable
        } else {
            CellStyle::Normal
        }
    }

    /// Finds how a cell looks.
    pub fn cell_style(&self, row: usize, column: usize, columns: &[ColumnDef]) -> (r: CellStyle)
        ensures
            r == self.style(row, column, columns@),
    {
        let base = default_cell_style(columns, column);
        if base != CellStyle::Normal {
            return base;
        }
        if row < self.entries.len() && column == 1 && text_changed(
            self.entries[row].alias.as_str(),
            self.entries[row].default_alias.as_str(),
        ) {
            CellStyle::ModifiedEditable
        } else {
            CellStyle::Normal
        }
    }

    /// Sets a name to the one that comes with the program.
    pub fn reset_row_to_default(&mut self, index: usize) -> (r: bool)
        ensures
            r == (index < old(self).entries@.len()),
            final(self).entries@ == (if r {
                let entry = old(self).entries@[index as int];
                old(self).entries@.update(
                    index as int,
                    PluginAliasConfigEntry { alias: entry.default_alias, ..entry },
                )
            } else {
                old(self).entries@
            }),
    {
        if index >= self.entries.len() {
            return false;
        }
        let slot = &mut self.entries[index];
        slot.alias = slot.default_alias.clone();
        true
    }

    /// The texts of all cells of a row.
    pub fn row_cells(&self, row: usize, columns: usize) -> (r: Vec<String>)
        ensures
            r@.len() == columns,
            forall|c: int|
                0 <= c < columns ==> (#[trigger] r@[c])@ == self.cell(row, c as usize),
    {
        let mut cells: Vec<String> = Vec::new();
        let mut c: usize = 0;
        while c < columns
            invariant
                c <= columns,
                cells@.len() == c,
                forall|i: int|
                    0 <= i < c ==> (#[trigger] cells@[i])@ == self.cell(row, i as usize),
            decreases columns - c,
        {
            cells.push(self.cell_text(row, c));
            c += 1;
        }
        cells
    }

    /// How the cells of a row look.
    pub open spec fn row_styles(&self, row: usize, columns: Seq<ColumnDef>) -> Seq<CellStyle> {
        Seq::new(columns.len(), |c: int| self.style(row, c as usize, columns))
    }

    /// Packs how the cells of a row look.
    pub fn row_style_param(&self, row: usize, columns: &[ColumnDef]) -> (r: isize)
        ensures
            r == packed_param(self.row_styles(row, columns@)),
    {
        let mut styles: Vec<CellStyle> = Vec::new();
        let mut c: usize = 0;
        while c < columns.len()
            invariant
                c <= columns.len(),
                styles@ == self.row_styles(row, columns@).take(c as int),
            decreases columns.len() - c,
        {
            styles.push(self.cell_style(row, c, columns));
            c += 1;
            proof {
                assert(styles@ =~= self.row_styles(row, columns@).take(c as int));
            }
        }
        proof {
            assert(styles@ =~= self.row_styles(row, columns@));
        }
        encode_cell_styles(styles.as_slice())
    }
}

// ---------------------------------------------------------------------------
// Scoring rules
// ---------------------------------------------------------------------------

/// The list of the scoring rules of a kind, among all rules.
#[derive(Debug, PartialEq, Eq)]
pub struct ScoringModel {
    pub rules: Vec<ScoringRuleEntry>,
    pub kind: ScoringRuleKind,
}

/// The places of the rules of a kind among the first `n`.
pub open spec fn kind_places(rules: Seq<ScoringRuleEntry>, kind: ScoringRuleKind, n: int) -> Seq<int>
    decreases n,
{
    if n <= 0 {
        Seq::empty()
    } else if rules[n - 1].kind == kind {
        kind_places(rules, kind, n - 1).push(n - 1)
    } else {
        kind_places(rules, kind, n - 1)
    }
}

/// The first rule that comes with the program with the kind and the key of a rule.
pub open spec fn default_by_key(
    rule: scoring_text::EntryModel,
    rules: Seq<scoring_text::EntryModel>,
    from: int,
) -> Option<scoring_text::EntryModel>
    decreases rules.len() - from,
{
    if from < 0 || from >= rules.len() {
        None
    } else if rules[from].kind == rule.kind && text::same_ignoring_ascii_case(
        rules[from].key,
        rule.key,
    ) {
        Some(rules[from])
    } else {
        default_by_key(rule, rules, from + 1)
    }
}

/// The rule that comes with the program for a rule, whatever its keywords.
pub fn default_scoring_rule_for_key(rule: &ScoringRuleEntry) -> (r: Option<ScoringRuleEntry>)
    ensures
        match default_by_key(rule@, scoring_text::listed(scoring_text::default_text()), 0) {
            None => r is None,
            Some(model) => r matches Some(found) && found@ == model,
        },
{
    let content = scoring_text::default_scoring_text();
    let mut rules = scoring_text::parse_scoring_rule_entries(content.as_str());
    let ghost all = scoring_text::listed(scoring_text::default_text());
    let ghost whole = rules@;
    proof {
        assert(all.len() == rules@.len());
    }
    let mut i: usize = 0;
    while i < rules.len()
        invariant
            i <= rules.len(),
            rules@ == whole,
            all == scoring_text::listed(scoring_text::default_text()),
            all == scoring_text::entry_models(whole),
            all.len() == whole.len(),
            default_by_key(rule@, all, 0) == default_by_key(rule@, all, i as int),
        decreases rules.len() - i,
    {
        proof {
            assert(all[i as int] == rules@[i as int]@);
        }
        if rules[i].kind == rule.kind && aliases::same_name(
            rules[i].key.as_str(),
            rule.key.as_str(),
        ) {
            return Some(rules.remove(i));
        }
        i += 1;
    }
    None
}

/// A rule differs in a column from the one that comes with the program.
pub open spec fn rule_differs(
    rule: scoring_text::EntryModel,
    given: scoring_text::EntryModel,
    kind: ScoringRuleKind,
    column: usize,
) -> bool {
    let other_value = text::trimmed(rule.value) != text::trimmed(given.value);
    if kind == ScoringRuleKind::Pattern {
        if column == 0 {
            !text::same_ignoring_ascii_case(text::trimmed(rule.key), text::trimmed(given.key))
        } else if column == 1 {
            rule.modifiers != given.modifiers
        } else {
            column == 2 && other_value
        }
    } else {
        column == 1 && other_value
    }
}

impl ScoringModel {
    /// The places of the rows among all rules.
    pub open spec fn places(&self) -> Seq<int> {
        kind_places(self.rules@, self.kind, self.rules@.len() as int)
    }

    /// The place of a row among all rules.
    pub fn actual_index(&self, visible: usize) -> (r: Option<usize>)
        ensures
            match r {
                Some(i) => visible < self.places().len() && i == self.places()[visible as int] && i
                    < self.rules@.len(),
                None => visible >= self.places().len(),
            },
    {
        let mut count: usize = 0;
        let mut i: usize = 0;
        while i < self.rules.len()
            invariant
                i <= self.rules.len(),
                count == kind_places(self.rules@, self.kind, i as int).len(),
                count <= visible,
                count <= i,
            decreases self.rules.len() - i,
        {
            if self.rules[i].kind == self.kind {
                if count == visible {
                    proof {
                        lemma_places_start(
                            self.rules@,
                            self.kind,
                            i + 1,
                            self.rules@.len() as int,
                            count as int,
                        );
                    }
                    return Some(i);
                }
                count += 1;
            }
            i += 1;
        }
        None
    }

    /// The number of rows.
    pub fn visible_count(&self) -> (r: usize)
        ensures
            r == self.places().len(),
    {
        let mut count: usize = 0;
        let mut i: usize = 0;
        while i < self.rules.len()
            invariant
                i <= self.rules.len(),
                count == kind_places(self.rules@, self.kind, i as int).len(),
                count <= i,
            decreases self.rules.len() - i,
        {
            if self.rules[i].kind == self.kind {
                count += 1;
            }
            i += 1;
        }
        count
    }

    /// Whether a row is switched on.
    pub fn is_row_enabled(&self, index: usize) -> (r: bool)
        ensures
            r == (index < self.places().len() && self.rules@[self.places()[index as int]].enabled),
    {
        match self.actual_index(index) {
            Some(i) => self.rules[i].enabled,
            None => false,
        }
    }

    /// What a cell shows.
    pub open spec fn cell(&self, row: usize, column: usize, label: Seq<char>, note: Seq<char>) -> Seq<char> {
        if row < self.places().len() {
            let rule = self.rules@[self.places()[row as int]];
            let is_pattern = self.kind == ScoringRuleKind::Pattern;
            if column == 0 {
                if is_pattern {
                    rule.key@
                } else {
                    label
                }
            } else if column == 1 {
                if is_pattern {
                    scoring::keywords_shown(text::texts(rule.modifiers@))
                } else {
                    rule.value@
                }
            } else if column == 2 {
                if is_pattern {
                    rule.value@
                } else {
                    note
                }
            } else if column == 3 {
                default_shown(rule@)
            } else {
                Seq::empty()
            }
        } else {
            Seq::empty()
        }
    }

    /// The text of a cell; a heuristic rule has a label and a note.
    pub fn cell_text(&self, row: usize, column: usize, label: &str, note: &str) -> (r: String)
        ensures
            r@ == self.cell(row, column, label@, note@),
    {
        if let Some(i) = self.actual_index(row) {
            let rule = &self.rules[i];
            let is_pattern = self.kind == ScoringRuleKind::Pattern;
            if column == 0 {
                return if is_pattern {
                    rule.key.clone()
                } else {
                    label.to_owned()
                };
            } else if column == 1 {
                return if is_pattern {
                    scoring_rules::scoring_modifiers_display(rule.modifiers.as_slice())
                } else {
                    rule.value.clone()
                };
            } else if column == 2 {
                return if is_pattern {
                    rule.value.clone()
                } else {
                    note.to_owned()
                };
            } else if column == 3 {
                return scoring_text::default_scoring_rule_value(rule);
            }
        }
        let none = String::new();
        proof {
            assert(none@ =~= Seq::<char>::empty());
        }
        none
    }

    /// Edits a cell.
    pub fn set_cell_text(&mut self, row: usize, column: usize, value: &str)
        ensures
            final(self).kind == old(self).kind,
            final(self).rules@.len() == old(self).rules@.len(),
            row >= old(self).places().len() ==> final(self).rules@ == old(self).rules@,
            row < old(self).places().len() ==> {
                let i = old(self).places()[row as int];
                let before = old(self).rules@[i];
                &&& final(self).rules@ == old(self).rules@.update(i, final(self).rules@[i])
                &&& rule_edited(final(self).rules@[i]@, before@, column, value@)
            },
    {
        if let Some(i) = self.actual_index(row) {
            let slot = &mut self.rules[i];
            if slot.kind == ScoringRuleKind::Pattern {
                if column == 0 {
                    slot.key = value.to_owned();
                } else if column == 1 {
                    slot.modifiers = index_roots::normalize_keywords(value);
                } else if column == 2 {
                    slot.value = value.to_owned();
                }
            } else if column == 1 {
                slot.value = value.to_owned();
            }
            proof {
                assert(self.rules@ =~= old(self).rules@.update(i as int, self.rules@[i as int]));
            }
        }
    }

    /// How a cell looks.
    pub open spec fn style(&self, row: usize, column: usize, columns: Seq<ColumnDef>) -> CellStyle {
        if base_style(columns, column as int) != CellStyle::Normal {
            base_style(columns, column as int)
        } else if row < self.places().len() {
            let rule = self.rules@[self.places()[row as int]]@;
            match default_by_key(
                rule,
                scoring_text::listed(scoring_text::default_text()),
                0,
            ) {
                Some(given) => if rule_differs(rule, given, self.kind, column) {
                    CellStyle::ModifiedEditable
                } else {
                    CellStyle::Normal
                },
                None => CellStyle::Normal,
            }
        } else {
            CellStyle::Normal
        }
    }

    /// Finds how a cell looks.
    pub fn cell_style(&self, row: usize, column: usize, columns: &[ColumnDef]) -> (r: CellStyle)
        ensures
            r == self.style(row, column, columns@),
    {
        let base = default_cell_style(columns, column);
        if base != CellStyle::Normal {
            return base;
        }
        let i: usize = match self.actual_index(row) {
            Some(i) => i,
            None => {
                return CellStyle::Normal;
            },
        };
        let rule = &self.rules[i];
        match default_scoring_rule_for_key(rule) {
            Some(given) => {
                let changed = if self.kind == ScoringRuleKind::Pattern {
                    if column == 0 {
                        folded_text_changed(rule.key.as_str(), given.key.as_str())
                    } else if column == 1 {
                        !text::same_texts(rule.modifiers.as_slice(), given.modifiers.as_slice())
                    } else {
                        column == 2 && text_changed(rule.value.as_str(), given.value.as_str())
                    }
                } else {
                    column == 1 && text_changed(rule.value.as_str(), given.value.as_str())
                };
                if changed {
                    CellStyle::ModifiedEditable
                } else {
                    CellStyle::Normal
                }
            },
            None => CellStyle::Normal,
        }
    }

    /// Switches a row on or off.
    pub fn toggle_row(&mut self, index: usize) -> (r: bool)
        ensures
            r == (index < old(self).places().len()),
            final(self).kind == old(self).kind,
            final(self).rules@ == (if r {
                let i = old(self).places()[index as int];
                old(self).rules@.update(
                    i,
                    ScoringRuleEntry {
                        enabled: !old(self).rules@[i].enabled,
                        ..old(self).rules@[i]
                    },
                )
            } else {
                old(self).rules@
            }),
    {
        match self.actual_index(index) {
            Some(i) => {
                let slot = &mut self.rules[i];
                slot.enabled = !slot.enabled;
                true
            },
            None => false,
        }
    }

    /// Deletes a row. Only rules for patterns can be deleted.
    pub fn delete_row(&mut self, index: usize) -> (r: bool)
        ensures
            r == (old(self).kind == ScoringRuleKind::Pattern && index < old(self).places().len()),
            final(self).kind == old(self).kind,
            final(self).rules@ == (if r {
                old(self).rules@.remove(old(self).places()[index as int])
            } else {
                old(self).rules@
            }),
    {
        if self.kind != ScoringRuleKind::Pattern {
            return false;
        }
        match self.actual_index(index) {
            Some(i) => {
                let _ = self.rules.remove(i);
                true
            },
            None => false,
        }
    }

    /// Sets a row to the rule that comes with the program.
    pub fn reset_row_to_default(&mut self, index: usize) -> (r: bool)
        ensures
            final(self).kind == old(self).kind,
            ({
                let all = scoring_text::listed(scoring_text::default_text());
                if index < old(self).places().len() {
                    let i = old(self).places()[index as int];
                    match default_by_key(old(self).rules@[i]@, all, 0) {
                        Some(given) => r && final(self).rules@ == old(self).rules@.update(
                            i,
                            final(self).rules@[i],
                        ) && final(self).rules@[i]@ == given,
                        None => !r && final(self).rules@ == old(self).rules@,
                    }
                } else {
                    !r && final(self).rules@ == old(self).rules@
                }
            }),
    {
        match self.actual_index(index) {
            Some(i) => match default_scoring_rule_for_key(&self.rules[i]) {
                Some(given) => {
                    self.rules.set(i, given);
                    true
                },
                None => false,
            },
            None => false,
        }
    }

    /// Swaps two rows. Only rules for patterns can be moved.
    pub fn swap_rows(&mut self, a: usize, b: usize) -> (r: bool)
        ensures
            final(self).kind == old(self).kind,
            ({
                let places = old(self).places();
                &&& r == (old(self).kind == ScoringRuleKind::Pattern && a < places.len() && b
                    < places.len() && places[a as int] != places[b as int])
                &&& final(self).rules@ == (if r {
                    old(self).rules@.update(
                        places[a as int],
                        old(self).rules@[places[b as int]],
                    ).update(places[b as int], old(self).rules@[places[a as int]])
                } else {
                    old(self).rules@
                })
            }),
    {
        if self.kind != ScoringRuleKind::Pattern {
            return false;
        }
        let (first, second): (usize, usize) = match (self.actual_index(a), self.actual_index(b)) {
            (Some(x), Some(y)) => (x, y),
            _ => {
                return false;
            },
        };
        if first == second {
            return false;
        }
        let low: usize = if first < second {
            first
        } else {
            second
        };
        let high: usize = if first < second {
            second
        } else {
            first
        };
        let upper = self.rules.remove(high);
        let lower = self.rules.remove(low);
        self.rules.insert(low, upper);
        self.rules.insert(high, lower);
        proof {
            assert(self.rules@ =~= old(self).rules@.update(
                first as int,
                old(self).rules@[second as int],
            ).update(second as int, old(self).rules@[first as int]));
        }
        true
    }

    /// The texts of all cells of a row.
    pub fn row_cells(&self, row: usize, columns: usize, label: &str, note: &str) -> (r: Vec<String>)
        ensures
            r@.len() == columns,
            forall|c: int|
                0 <= c < columns ==> (#[trigger] r@[c])@ == self.cell(row, c as usize, label@, note@),
    {
        let mut cells: Vec<String> = Vec::new();
        let mut c: usize = 0;
        while c < columns
            invariant
                c <= columns,
                cells@.len() == c,
                forall|i: int|
                    0 <= i < c ==> (#[trigger] cells@[i])@ == self.cell(row, i as usize, label@, note@),
            decreases columns - c,
        {
            cells.push(self.cell_text(row, c, label, note));
            c += 1;
        }
        cells
    }

    /// How the cells of a row look.
    pub open spec fn row_styles(&self, row: usize, columns: Seq<ColumnDef>) -> Seq<CellStyle> {
        Seq::new(columns.len(), |c: int| self.style(row, c as usize, columns))
    }

    /// Packs how the cells of a row look.
    pub fn row_style_param(&self, row: usize, columns: &[ColumnDef]) -> (r: isize)
        ensures
            r == packed_param(self.row_styles(row, columns@)),
    {
        let mut styles: Vec<CellStyle> = Vec::new();
        let mut c: usize = 0;
        while c < columns.len()
            invariant
                c <= columns.len(),
                styles@ == self.row_styles(row, columns@).take(c as int),
            decreases columns.len() - c,
        {
            styles.push(self.cell_style(row, c, columns));
            c += 1;
            proof {
                assert(styles@ =~= self.row_styles(row, columns@).take(c as int));
            }
        }
        proof {
            assert(styles@ =~= self.row_styles(row, columns@));
        }
        encode_cell_styles(styles.as_slice())
    }
}

proof fn lemma_places_start(rules: Seq<ScoringRuleEntry>, kind: ScoringRuleKind, n: int, m: int, k: int)
    requires
        0 <= n <= m <= rules.len(),
        0 <= k < kind_places(rules, kind, n).len(),
    ensures
        kind_places(rules, kind, m).len() >= kind_places(rules, kind, n).len(),
        kind_places(rules, kind, m)[k] == kind_places(rules, kind, n)[k],
    decreases m,
{
    if n < m {
        lemma_places_start(rules, kind, n, m - 1, k);
    }
}

/// How the rule that comes with the program is shown beside a rule.
pub open spec fn default_shown(rule: scoring_text::EntryModel) -> Seq<char> {
    match scoring_text::same_rule_from(
        rule,
        scoring_text::listed(scoring_text::default_text()),
        0,
    ) {
        None => ""@,
        Some(found) => found.value + " ("@ + (if found.enabled {
            "On"@
        } else {
            "Off"@
        }) + ")"@,
    }
}

/// A rule after a cell was edited.
pub open spec fn rule_edited(
    after: scoring_text::EntryModel,
    before: scoring_text::EntryModel,
    column: usize,
    value: Seq<char>,
) -> bool {
    if before.kind == ScoringRuleKind::Pattern {
        if column == 0 {
            after == (scoring_text::EntryModel { key: value, ..before })
        } else if column == 1 {
            after == (scoring_text::EntryModel {
                modifiers: index_roots::keywords_in(value),
                ..before
            })
        } else if column == 2 {
            after == (scoring_text::EntryModel { value, ..before })
        } else {
            after == before
        }
    } else if column == 1 {
        after == (scoring_text::EntryModel { value, ..before })
    } else {
        after == before
    }
}

// ---------------------------------------------------------------------------
// What is typed and what is shown
// ---------------------------------------------------------------------------

/// What is typed into a cell of a folder is shown there: a path and keywords as they are kept,
/// a score and a depth where they are numbers.
pub proof fn lemma_typed_folders_are_shown(
    after: IndexRoot,
    before: IndexRoot,
    defaults: Seq<IndexRoot>,
    column: usize,
    value: Seq<char>,
    default_read: Option<IndexRoot>,
    env: Environment,
    n: i32,
    depth: isize,
)
    requires
        folder_edited(after, before, column, value, default_read, env),
    ensures
        column == 0 ==> folder_cell(after, defaults, 0) == text::trimmed(value),
        column == 1 ==> folder_cell(after, defaults, 1) == scoring::keywords_shown(
            index_roots::keywords_in(value),
        ),
        column == 2 && value == text::decimal(n as int) ==> folder_cell(after, defaults, 2) == value,
        column == 3 && value == text::decimal(depth as int) && depth >= -1 ==> folder_cell(
            after,
            defaults,
            3,
        ) == value,
        forall|c: usize|
            c != column && c < 4 && column < 4 ==> #[trigger] folder_cell(after, defaults, c)
                == folder_cell(before, defaults, c),
        column > 4 ==> after == before,
        column != 4 ==> after.enabled == before.enabled && after.label == before.label,
{
    text::lemma_decimal_round_trip(n as int);
    if column == 3 && value == text::decimal(depth as int) {
        text::lemma_decimal_round_trip(depth as int);
        text::lemma_decimal_chars(depth as int);
        let shown = text::decimal(depth as int);
        assert(text::is_digit(shown[0]) || shown[0] == '-');
        assert(text::is_digit(shown[shown.len() - 1]) || shown[shown.len() - 1] == '-');
        text::lemma_trimmed_stays(shown);
        if depth == -1 {
            let one: nat = 1;
            let none: nat = 0;
            text::lemma_written_in_tens(one, none);
            text::lemma_written_in_tens(none, one);
            reveal_strlit("-1");
            assert("-1"@ =~= seq!['-'] + text::decimal(1));
            assert(shown =~= "-1"@);
        }
    }
}

/// What is typed into a cell of a rule is kept there and changes nothing else; the note and the
/// name of a rule with a weight cannot be typed over.
pub proof fn lemma_typed_rules_are_kept(
    after: scoring_text::EntryModel,
    before: scoring_text::EntryModel,
    column: usize,
    value: Seq<char>,
)
    requires
        rule_edited(after, before, column, value),
    ensures
        after.kind == before.kind && after.enabled == before.enabled,
        before.kind == ScoringRuleKind::Pattern && column == 0 ==> after.key == value,
        before.kind == ScoringRuleKind::Pattern && column == 2 ==> after.value == value,
        before.kind == ScoringRuleKind::Pattern && column == 1 ==> after.modifiers
            == index_roots::keywords_in(value),
        before.kind == ScoringRuleKind::Heuristic && column == 1 ==> after.value == value,
        before.kind == ScoringRuleKind::Heuristic ==> after.key == before.key && after.modifiers
            == before.modifiers,
        before.kind == ScoringRuleKind::Heuristic && column != 1 ==> after == before,
        before.kind == ScoringRuleKind::Pattern && column != 0 ==> after.key == before.key,
        before.kind == ScoringRuleKind::Pattern && column != 1 ==> after.modifiers
            == before.modifiers,
        before.kind == ScoringRuleKind::Pattern && column != 2 ==> after.value == before.value,
{
}

/// The rows of a page are the rules of its kind, in their order.
pub proof fn lemma_rows_of_a_kind(rules: Seq<ScoringRuleEntry>, kind: ScoringRuleKind, n: int)
    requires
        0 <= n <= rules.len(),
    ensures
        places::picks_all(kind_places(rules, kind, n), n, |p: int| rules[p].kind == kind),
    decreases n,
{
    if n > 0 {
        lemma_rows_of_a_kind(rules, kind, n - 1);
        places::lemma_pick_one_more(
            kind_places(rules, kind, n - 1),
            n - 1,
            |p: int| rules[p].kind == kind,
        );
    }
}

/// A folder comes with the program where one of its name does: the first of that name.
pub proof fn lemma_which_folders_come_along(root: IndexRoot, defaults: Seq<IndexRoot>, from: int)
    requires
        0 <= from <= defaults.len(),
    ensures
        match default_place(root, defaults, from) {
            None => forall|i: int|
                from <= i < defaults.len() ==> !text::same_ignoring_ascii_case(
                    (#[trigger] defaults[i]).raw@,
                    root.raw@,
                ),
            Some(p) => from <= p < defaults.len() && text::same_ignoring_ascii_case(
                defaults[p].raw@,
                root.raw@,
            ) && forall|i: int|
                from <= i < p ==> !text::same_ignoring_ascii_case(
                    (#[trigger] defaults[i]).raw@,
                    root.raw@,
                ),
        },
    decreases defaults.len() - from,
{
    if from < defaults.len() && !text::same_ignoring_ascii_case(defaults[from].raw@, root.raw@) {
        lemma_which_folders_come_along(root, defaults, from + 1);
    }
}

/// A rule comes with the program where one of its kind and key does: the first such.
pub proof fn lemma_which_rules_come_along(
    rule: scoring_text::EntryModel,
    rules: Seq<scoring_text::EntryModel>,
    from: int,
    p: int,
)
    requires
        0 <= from <= p <= rules.len(),
        forall|i: int|
            from <= i < p ==> (#[trigger] rules[i]).kind != rule.kind
                || !text::same_ignoring_ascii_case(rules[i].key, rule.key),
        p < rules.len() ==> rules[p].kind == rule.kind && text::same_ignoring_ascii_case(
            rules[p].key,
            rule.key,
        ),
    ensures
        p < rules.len() ==> default_by_key(rule, rules, from) == Some(rules[p]),
        p == rules.len() ==> default_by_key(rule, rules, from) is None,
    decreases p - from,
{
    if from < p {
        lemma_which_rules_come_along(rule, rules, from + 1, p);
    }
}

/// A cell is marked where it can be edited and is other than what comes with the program; a
/// folder that is as it came is marked nowhere.
pub proof fn lemma_only_changes_are_marked(root: IndexRoot, given: IndexRoot, column: usize)
    ensures
        root.raw@ == given.raw@ && text::texts(root.keywords@) == text::texts(given.keywords@)
            && root.score == given.score && root.max_depth == given.max_depth ==> !folder_differs(
            root,
            given,
            column,
        ),
        folder_differs(root, given, 2) <==> root.score != given.score,
        folder_differs(root, given, 3) <==> root.max_depth != given.max_depth,
        folder_differs(root, given, 1) <==> text::texts(root.keywords@) != text::texts(
            given.keywords@,
        ),
        folder_differs(root, given, 0) ==> root.raw@ != given.raw@,
        column >= 4 ==> !folder_differs(root, given, column),
{
}

/// Columns that cannot be edited look so, and the column of what comes with the program never
/// can.
pub proof fn lemma_looks_of_columns(columns: Seq<ColumnDef>, column: int)
    requires
        0 <= column < columns.len(),
    ensures
        base_style(columns, column) == CellStyle::ReadonlyDefault <==> !columns[column].editable
            || columns[column].role == ColumnRole::DefaultValue,
        base_style(columns, column) == CellStyle::Normal <==> columns[column].editable
            && columns[column].role != ColumnRole::DefaultValue,
        base_style(columns, columns.len() as int) == CellStyle::Normal,
{
}

/// The last column of a page holds what comes with the program, where the page has such a
/// column; the rules that were learned cannot be edited at all.
pub proof fn lemma_columns_of_pages(page: SettingsPage, i: int)
    requires
        0 <= i < page_layout(page).len(),
    ensures
        page_layout(page)[i] is None <==> i == page_layout(page).len() - 1 && page
            != SettingsPage::QueryLaunchRules,
        page == SettingsPage::QueryLaunchRules ==> page_layout(page)[i] == Some(false),
        page == SettingsPage::SearchFolders || page == SettingsPage::PatternScoring ==> (
        page_layout(page)[i] == Some(true) <==> i < page_layout(page).len() - 1),
        page == SettingsPage::PluginAliases || page == SettingsPage::HeuristicScoring ==> (
        page_layout(page)[i] == Some(true) <==> i == 1),
{
}

/// A rule is marked where its value is another than the one that comes with the program; the
/// key and the keywords only of a pattern.
pub proof fn lemma_changed_rules_are_marked(
    rule: scoring_text::EntryModel,
    given: scoring_text::EntryModel,
    column: usize,
)
    ensures
        rule_differs(rule, given, ScoringRuleKind::Heuristic, column) <==> column == 1
            && text::trimmed(rule.value) != text::trimmed(given.value),
        rule_differs(rule, given, ScoringRuleKind::Pattern, 2) <==> text::trimmed(rule.value)
            != text::trimmed(given.value),
        rule_differs(rule, given, ScoringRuleKind::Pattern, 1) <==> rule.modifiers
            != given.modifiers,
        rule_differs(rule, given, ScoringRuleKind::Pattern, 0) ==> rule.key != given.key,
        rule.key == given.key && rule.value == given.value && rule.modifiers == given.modifiers
            ==> !rule_differs(rule, given, rule.kind, column),
        column > 2 ==> !rule_differs(rule, given, rule.kind, column),
{
}

} // verus!
