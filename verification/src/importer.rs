//! Turning delimited text into rows of cells, class maps and data sets.

use vstd::prelude::*;

use crate::error::PrimeclueErr;
use crate::outcome::Class;
use crate::text::{first_occurrence, join, lemma_first_occurrence_bounds, lemma_split_join, lemma_split_pieces_free, lemma_split_nonempty, occurs_at, chars_of, split, split_chars, string_of, trim, trim_chars};

verus! {

/// The trimmed lines of `lines` that are not empty, in order.
pub open spec fn nonblank(lines: Seq<Seq<char>>) -> Seq<Seq<char>>
    decreases lines.len(),
{
    if lines.len() == 0 {
        seq![]
    } else {
        let rest = nonblank(lines.drop_last());
        let line = trim(lines.last());
        if line.len() > 0 {
            rest.push(line)
        } else {
            rest
        }
    }
}

/// The data lines of `content`: its trimmed, non-empty lines, without the
/// first one when `ignore_first_row` holds.
pub open spec fn data_lines(content: Seq<char>, ignore_first_row: bool) -> Seq<Seq<char>> {
    let lines = nonblank(split(content, seq!['\n']));
    if ignore_first_row && lines.len() > 0 {
        lines.drop_first()
    } else {
        lines
    }
}

/// The cells of each data line of `content`, split on `separator`.
pub open spec fn split_rows(content: Seq<char>, separator: Seq<char>, ignore_first_row: bool) -> Seq<
    Seq<Seq<char>>,
> {
    data_lines(content, ignore_first_row).map_values(|line: Seq<char>| split(line, separator))
}

/// Splits `content` into trimmed, non-empty lines, drops the first one when
/// `ignore_first_row` holds, and splits each line on `separator`.
pub fn split_to_vec(content: &str, separator: &str, ignore_first_row: bool) -> (r: Vec<
    Vec<String>,
>)
    ensures
        r.deep_view() == split_rows(content@, separator@, ignore_first_row),
{
    let chars = chars_of(content);
    let sep = chars_of(separator);
    let mut newline: Vec<char> = Vec::new();
    newline.push('\n');
    assert(newline@ =~= seq!['\n']);
    let lines = split_chars(&chars, &newline);
    let ghost all = split(chars@, newline@);
    let mut kept: Vec<Vec<char>> = Vec::new();
    let mut i: usize = 0;
    while i < lines.len()
        invariant
            i <= lines@.len(),
            lines@.len() == all.len(),
            forall|k: int| 0 <= k < lines@.len() ==> #[trigger] lines@[k]@ == all[k],
            kept@.len() == nonblank(all.take(i as int)).len(),
            forall|k: int|
                0 <= k < kept@.len() ==> #[trigger] kept@[k]@ == nonblank(all.take(i as int))[k],
        decreases lines@.len() - i,
    {
        let line = trim_chars(&lines[i]);
        assert(all.take(i + 1).drop_last() =~= all.take(i as int));
        if line.len() > 0 {
            kept.push(line);
        }
        i += 1;
    }
    assert(all.take(i as int) =~= all);
    let mut first: usize = 0;
    if ignore_first_row && kept.len() > 0 {
        first = 1;
    }
    let ghost wanted = split_rows(content@, separator@, ignore_first_row);
    let mut r: Vec<Vec<String>> = Vec::new();
    let mut j: usize = first;
    while j < kept.len()
        invariant
            first <= j <= kept@.len(),
            first == (if ignore_first_row && kept@.len() > 0 { 1int } else { 0int }),
            kept@.len() == nonblank(all).len(),
            forall|k: int| 0 <= k < kept@.len() ==> #[trigger] kept@[k]@ == nonblank(all)[k],
            all == split(content@, seq!['\n']),
            sep@ == separator@,
            wanted == split_rows(content@, separator@, ignore_first_row),
            r@.len() == j - first,
            forall|k: int| 0 <= k < r@.len() ==> #[trigger] r@[k].deep_view() == wanted[k],
        decreases kept@.len() - j,
    {
        let cells = split_chars(&kept[j], &sep);
        let mut row: Vec<String> = Vec::new();
        let mut c: usize = 0;
        while c < cells.len()
            invariant
                c <= cells@.len(),
                row@.len() == c,
                forall|m: int| 0 <= m < c ==> #[trigger] row@[m]@ == cells@[m]@,
            decreases cells@.len() - c,
        {
            row.push(string_of(&cells[c]));
            c += 1;
        }
        assert(row.deep_view() =~= split(kept@[j as int]@, sep@));
        r.push(row);
        j += 1;
    }
    assert(r.deep_view() =~= wanted);
    r
}


/// The first line of `content`, trimmed.
pub open spec fn first_line(content: Seq<char>) -> Seq<char> {
    trim(split(content, seq!['\n'])[0])
}

/// The header: the cells of the first line when it is a header row, as many
/// empty names as it has cells otherwise, followed by `names`.
pub open spec fn header_row(
    content: Seq<char>,
    separator: Seq<char>,
    ignore_first_row: bool,
    names: Seq<Seq<char>>,
) -> Seq<Seq<char>> {
    let cells = split(first_line(content), separator);
    (if ignore_first_row {
        cells
    } else {
        Seq::new(cells.len(), |i: int| Seq::<char>::empty())
    }) + names
}

/// The column names of `content`: taken from its first line when that line
/// is a header (`ignore_first_row`), else left empty, one per cell of the
/// first line; `names` follow.
pub fn get_header_row(
    content: &str,
    separator: &str,
    ignore_first_row: bool,
    names: Vec<String>,
) -> (r: Vec<String>)
    ensures
        r.deep_view() == header_row(content@, separator@, ignore_first_row, names.deep_view()),
{
    let chars = chars_of(content);
    let sep = chars_of(separator);
    let mut newline: Vec<char> = Vec::new();
    newline.push('\n');
    assert(newline@ =~= seq!['\n']);
    let lines = split_chars(&chars, &newline);
    let first = trim_chars(&lines[0]);
    let cells = split_chars(&first, &sep);
    let ghost wanted = header_row(content@, separator@, ignore_first_row, names.deep_view());
    let mut header: Vec<String> = Vec::new();
    let mut i: usize = 0;
    while i < cells.len()
        invariant
            i <= cells@.len(),
            cells@.len() == split(first_line(content@), separator@).len(),
            forall|k: int| 0 <= k < cells@.len() ==> #[trigger] cells@[k]@ == split(
                first_line(content@),
                separator@,
            )[k],
            wanted == header_row(content@, separator@, ignore_first_row, names.deep_view()),
            header@.len() == i,
            forall|k: int| 0 <= k < i ==> #[trigger] header@[k]@ == wanted[k],
        decreases cells@.len() - i,
    {
        if ignore_first_row {
            header.push(string_of(&cells[i]));
        } else {
            header.push(String::new());
        }
        i += 1;
    }
    let ghost head = header@;
    let mut names = names;
    let ghost given = names@;
    header.append(&mut names);
    assert forall|k: int| 0 <= k < header@.len() implies #[trigger] header@[k]@ == wanted[k] by {
        if k >= head.len() {
            assert(header@[k] == given[k - head.len()]);
        }
    }
    assert(header.deep_view() =~= wanted);
    header
}

/// The first row (from `from` on) that has no cell at index `column`.
pub open spec fn first_short_row(rows: Seq<Seq<Seq<char>>>, column: int, from: int) -> Option<int>
    decreases rows.len() - from,
{
    if from < 0 || from >= rows.len() {
        None
    } else if column >= rows[from].len() {
        Some(from)
    } else {
        first_short_row(rows, column, from + 1)
    }
}

/// Removes the cell at index `column` from every row and returns the removed
/// cells in row order. Where a row is too short, the rows before it have
/// already lost their cell, that row and the ones after it are left as they
/// were, and the error says how many cells that row holds.
pub fn remove_column(content: &mut Vec<Vec<String>>, column: usize) -> (r: Result<
    Vec<String>,
    PrimeclueErr,
>)
    ensures
        final(content)@.len() == old(content)@.len(),
        match first_short_row(old(content).deep_view(), column as int, 0) {
            None => {
                &&& r matches Ok(values)
                &&& values.deep_view() == Seq::new(
                    old(content)@.len(),
                    |i: int| old(content)@[i]@[column as int]@,
                )
                &&& forall|i: int|
                    0 <= i < old(content)@.len() ==> #[trigger] final(content)@[i]@ == old(
                        content,
                    )@[i]@.remove(column as int)
            },
            Some(k) => {
                &&& r == Err::<Vec<String>, PrimeclueErr>(
                    PrimeclueErr::RemoveColumn { column, present: old(content)@[k]@.len() as usize },
                )
                &&& forall|i: int|
                    0 <= i < k ==> #[trigger] final(content)@[i]@ == old(content)@[i]@.remove(
                        column as int,
                    )
                &&& forall|i: int|
                    k <= i < old(content)@.len() ==> #[trigger] final(content)@[i] == old(
                        content,
                    )@[i]
            },
        },
{
    let ghost before = content.deep_view();
    let ghost orig = content@;
    let mut values: Vec<String> = Vec::new();
    let mut i: usize = 0;
    while i < content.len()
        invariant
            i <= content@.len(),
            content@.len() == orig.len(),
            orig == old(content)@,
            before == old(content).deep_view(),
            before.len() == orig.len(),
            forall|k: int| 0 <= k < orig.len() ==> #[trigger] before[k] == orig[k].deep_view(),
            first_short_row(before, column as int, 0) == first_short_row(
                before,
                column as int,
                i as int,
            ),
            values@.len() == i,
            forall|k: int| 0 <= k < i ==> #[trigger] values@[k]@ == orig[k]@[column as int]@,
            forall|k: int| 0 <= k < i ==> #[trigger] content@[k]@ == orig[k]@.remove(column as int),
            forall|k: int| i <= k < orig.len() ==> #[trigger] content@[k] == orig[k],
        decreases orig.len() - i,
    {
        let mut row: Vec<String> = Vec::new();
        content.set_and_swap(i, &mut row);
        assert(row == orig[i as int]);
        assert(before[i as int].len() == row@.len());
        if column >= row.len() {
            let present = row.len();
            content.set_and_swap(i, &mut row);
            assert forall|k: int| 0 <= k < orig.len() implies #[trigger] content@[k] == (if k < i {
                content@[k]
            } else {
                orig[k]
            }) by {}
            return Err(PrimeclueErr::RemoveColumn { column, present });
        }
        let v = row.remove(column);
        values.push(v);
        content.set_and_swap(i, &mut row);
        i += 1;
    }
    assert(values.deep_view() =~= Seq::new(orig.len(), |k: int| orig[k]@[column as int]@));
    Ok(values)
}


/// Putting a removed cell back where it was restores the row.
pub proof fn lemma_remove_column_undo<A>(row: Seq<A>, column: int)
    requires
        0 <= column < row.len(),
    ensures
        row.remove(column).insert(column, row[column]) == row,
{
    assert(row.remove(column).insert(column, row[column]) =~= row);
}

/// The distinct non-empty cells at index `column` of `rows`, in the order in
/// which they first occur.
pub open spec fn class_names(rows: Seq<Seq<Seq<char>>>, column: int) -> Seq<Seq<char>>
    decreases rows.len(),
{
    if rows.len() == 0 {
        seq![]
    } else {
        let names = class_names(rows.drop_last(), column);
        let v = rows.last()[column];
        if v.len() > 0 && !names.contains(v) {
            names.push(v)
        } else {
            names
        }
    }
}

/// The class that `names` gives to `value`: the one numbered by the
/// position of `value` among them, the number kept to 16 bits.
pub open spec fn class_of(names: Seq<Seq<char>>, value: Seq<char>) -> Option<Class> {
    if names.contains(value) {
        Some(Class { id: (choose|i: int| 0 <= i < names.len() && names[i] == value) as u16 })
    } else {
        None
    }
}

/// Class names and the classes they stand for: the name at position `i`
/// stands for class `i`.
pub struct ClassMap {
    names: Vec<String>,
}

impl View for ClassMap {
    type V = Seq<Seq<char>>;

    closed spec fn view(&self) -> Seq<Seq<char>> {
        self.names.deep_view()
    }
}

impl ClassMap {
    /// The names are distinct and none is empty.
    pub closed spec fn wf(&self) -> bool {
        &&& self@.no_duplicates()
        &&& forall|i: int| 0 <= i < self@.len() ==> #[trigger] self@[i].len() > 0
    }

    /// The name at position `k` names class `k` (kept to 16 bits), and no
    /// name is empty or named twice.
    pub proof fn lemma_positions(&self, k: int)
        requires
            self.wf(),
            0 <= k < self@.len(),
        ensures
            class_of(self@, self@[k]) == Some(Class { id: k as u16 }),
            self@.no_duplicates(),
            self@[k].len() > 0,
    {
        assert(self@.contains(self@[k]));
        let j = choose|j: int| 0 <= j < self@.len() && self@[j] == self@[k];
        assert(j == k) by {
            if j != k {
                assert(self@[j] != self@[k]);
            }
        }
    }

    /// The number of classes.
    pub fn len(&self) -> (n: usize)
        ensures
            n == self@.len(),
    {
        self.names.len()
    }

    /// The class that `value` names, if any.
    pub fn get(&self, value: &String) -> (c: Option<Class>)
        requires
            self.wf(),
        ensures
            c == class_of(self@, value@),
    {
        let mut i: usize = 0;
        while i < self.names.len()
            invariant
                self.wf(),
                i <= self@.len(),
                self@.len() == self.names@.len(),
                forall|k: int| 0 <= k < self@.len() ==> #[trigger] self@[k] == self.names@[k]@,
                forall|k: int| 0 <= k < i ==> self@[k] != value@,
            decreases self@.len() - i,
        {
            if self.names[i] == *value {
                proof {
                    assert(self@[i as int] == value@);
                    assert(self@.contains(value@));
                    let j = choose|j: int| 0 <= j < self@.len() && self@[j] == value@;
                    assert(j == i) by {
                        assert(self@.no_duplicates());
                        if j != i {
                            assert(self@[j] != self@[i as int]);
                        }
                    }
                }
                return Some(Class::new(#[verifier::truncate] (i as u16)));
            }
            i += 1;
        }
        None
    }

    /// The class names, the name of class `i` at position `i`.
    pub fn all_classes(&self) -> (names: Vec<String>)
        ensures
            names.deep_view() == self@,
    {
        let mut names: Vec<String> = Vec::new();
        let mut i: usize = 0;
        while i < self.names.len()
            invariant
                i <= self@.len(),
                self@.len() == self.names@.len(),
                forall|k: int| 0 <= k < self@.len() ==> #[trigger] self@[k] == self.names@[k]@,
                names@.len() == i,
                forall|k: int| 0 <= k < i ==> #[trigger] names@[k]@ == self@[k],
            decreases self@.len() - i,
        {
            names.push(self.names[i].clone());
            i += 1;
        }
        assert(names.deep_view() =~= self@);
        names
    }
}

/// Collects the classes of column `column`: every distinct non-empty cell
/// there becomes a class, numbered in the order in which it first occurs.
/// Fails on the first row that has no such column.
pub fn build_class_map(data: &Vec<Vec<String>>, column: usize) -> (r: Result<ClassMap, PrimeclueErr>)
    ensures
        match first_short_row(data.deep_view(), column as int, 0) {
            Some(k) => r == Err::<ClassMap, PrimeclueErr>(
                PrimeclueErr::NoColumn { column, row: k as usize },
            ),
            None => r matches Ok(m) && m.wf() && m@ == class_names(data.deep_view(), column as int),
        },
{
    let ghost rows = data.deep_view();
    let mut names: Vec<String> = Vec::new();
    let mut i: usize = 0;
    while i < data.len()
        invariant
            i <= data@.len(),
            rows == data.deep_view(),
            first_short_row(rows, column as int, 0) == first_short_row(rows, column as int, i as int),
            names.deep_view() == class_names(rows.take(i as int), column as int),
            names.deep_view().no_duplicates(),
            forall|k: int| 0 <= k < names@.len() ==> #[trigger] names@[k]@.len() > 0,
        decreases data@.len() - i,
    {
        assert(rows[i as int] == data@[i as int].deep_view());
        if column >= data[i].len() {
            return Err(PrimeclueErr::NoColumn { column, row: i });
        }
        let v = &data[i][column];
        assert(rows.take(i + 1).drop_last() =~= rows.take(i as int));
        assert(rows.take(i + 1).last() == rows[i as int]);
        assert(v@ == rows[i as int][column as int]);
        let mut found = false;
        let mut j: usize = 0;
        while j < names.len()
            invariant
                j <= names@.len(),
                found ==> names.deep_view().contains(v@),
                !found ==> forall|k: int| 0 <= k < j ==> names@[k]@ != v@,
            decreases names@.len() - j,
        {
            if names[j] == *v {
                assert(names.deep_view()[j as int] == v@);
                found = true;
            }
            j += 1;
        }
        if !found {
            assert(!names.deep_view().contains(v@));
        }
        if !v.as_str().is_empty() && !found {
            let ghost old_names = names.deep_view();
            names.push(v.clone());
            assert(names.deep_view() =~= old_names.push(v@));
        }
        i += 1;
    }
    assert(rows.take(i as int) =~= rows);
    Ok(ClassMap { names })
}

/// Gives each row the class that its cell in the class column names.
pub struct ClassProducer {
    column: usize,
    classes: ClassMap,
}

impl ClassProducer {
    /// The column that holds the class names.
    pub closed spec fn column(&self) -> usize {
        self.column
    }

    /// The classes.
    pub closed spec fn classes(&self) -> ClassMap {
        self.classes
    }

    /// A producer that reads class names from `column` and maps them by `classes`.
    pub fn create(column: usize, classes: ClassMap) -> (p: ClassProducer)
        ensures
            p.column() == column,
            p.classes() == classes,
    {
        ClassProducer { column, classes }
    }

    /// The class of row `row` of `data`.
    pub fn class(&self, data: &Vec<Vec<String>>, row: usize) -> (r: Result<Option<Class>, PrimeclueErr>)
        requires
            self.classes().wf(),
            row < data@.len(),
            self.column() < data@[row as int]@.len(),
            class_of(self.classes()@, data@[row as int]@[self.column() as int]@) is Some,
        ensures
            r == Ok::<Option<Class>, PrimeclueErr>(
                class_of(self.classes()@, data@[row as int]@[self.column() as int]@),
            ),
    {
        let c = self.classes.get(&data[row][self.column]);
        Ok(c)
    }

    /// The class names, the name of class `i` at position `i`.
    pub fn all_classes(&self) -> (names: Vec<String>)
        ensures
            names.deep_view() == self.classes()@,
    {
        self.classes.all_classes()
    }
}


/// What to import and how: the text, its layout, and which columns hold the
/// class, the numbers, and the reward and penalty.
pub struct ClassRequest {
    /// The text to import.
    pub content: String,
    /// The column (counted from 1) that holds the class names.
    pub class_column: usize,
    /// What separates the cells of a line.
    pub separator: String,
    /// Whether the first non-empty line is a header rather than data.
    pub ignore_first_row: bool,
    /// How many consecutive rows make up one data point.
    pub rows_per_set: usize,
    /// Which cells of a row are numbers to import, by position.
    pub import_columns: Vec<bool>,
    /// The name of the data set.
    pub data_name: String,
    /// Whether reward and penalty come from columns of each row.
    pub custom_reward_penalty_columns: bool,
    /// The column (counted from 1) of the reward, when read from the rows.
    pub reward_column: usize,
    /// The column (counted from 1) of the penalty, when read from the rows.
    pub penalty_column: usize,
}

impl ClassRequest {
    /// A request for comma-separated `content` that imports every column
    /// but the last and takes the class from the last one; `content` must
    /// hold at least one data line.
    pub fn simple_csv_request(name: &str, content: String, ignore_first_row: bool) -> (r: Self)
        requires
            split_rows(content@, seq![','], ignore_first_row).len() > 0,
        ensures
            r.content == content,
            r.class_column == split_rows(content@, seq![','], ignore_first_row)[0].len(),
            r.separator@ == seq![','],
            r.ignore_first_row == ignore_first_row,
            r.rows_per_set == 1,
            r.import_columns@.len() == r.class_column,
            forall|i: int|
                0 <= i < r.import_columns@.len() ==> #[trigger] r.import_columns@[i] == (i
                    < r.class_column - 1),
            r.data_name@ == name@,
            !r.custom_reward_penalty_columns,
            r.reward_column == 0,
            r.penalty_column == 0,
    {
        let comma = String::from_str(",");
        proof {
            reveal_strlit(",");
        }
        assert(comma@ =~= seq![',']);
        let rows = split_to_vec(content.as_str(), comma.as_str(), ignore_first_row);
        assert(rows.deep_view().len() == rows@.len());
        assert(rows.deep_view()[0] == rows@[0].deep_view());
        let len = rows[0].len();
        proof {
            lemma_split_nonempty(data_lines(content@, ignore_first_row)[0], seq![',']);
        }
        let mut import_columns: Vec<bool> = Vec::new();
        let mut i: usize = 0;
        while i < len
            invariant
                i <= len,
                len >= 1,
                import_columns@.len() == i,
                forall|k: int| 0 <= k < i ==> #[trigger] import_columns@[k] == (k < len - 1),
            decreases len - i,
        {
            import_columns.push(i + 1 < len);
            i += 1;
        }
        ClassRequest {
            content,
            class_column: len,
            separator: comma,
            ignore_first_row,
            rows_per_set: 1,
            import_columns,
            data_name: String::from_str(name),
            custom_reward_penalty_columns: false,
            reward_column: 0,
            penalty_column: 0,
        }
    }

    /// The reward and penalty cells of `row`: none when they are not read
    /// from the rows, else the cells of the reward and penalty columns.
    pub fn extract_reward_penalty(&self, row: &Vec<String>) -> (r: Result<
        RewardPenalty,
        ColumnFailure,
    >)
        requires
            !(reward_penalty_of(self, row.deep_view()) is Panic),
        ensures
            match reward_penalty_of(self, row.deep_view()) {
                RewardPenaltyCells::Cells(cells) => r matches Ok(rp) && rp.view() == cells,
                RewardPenaltyCells::Missing(error, reward) => r matches Err(f) && f.error == error
                    && f.reward_view() == reward,
                RewardPenaltyCells::Panic => false,
            },
    {
        if self.custom_reward_penalty_columns {
            let reward_index = self.reward_column - 1;
            if reward_index >= row.len() {
                return Err(
                    ColumnFailure {
                        error: PrimeclueErr::MissingColumn { column: self.reward_column },
                        reward: None,
                    },
                );
            }
            let reward = row[reward_index].clone();
            let penalty_index = self.penalty_column - 1;
            if penalty_index >= row.len() {
                return Err(
                    ColumnFailure {
                        error: PrimeclueErr::MissingColumn { column: self.penalty_column },
                        reward: Some(reward),
                    },
                );
            }
            let penalty = row[penalty_index].clone();
            Ok(RewardPenalty::Columns { reward, penalty })
        } else {
            Ok(RewardPenalty::Default)
        }
    }
}


/// The reward and penalty of a data point: the default ones, or the cells
/// of the reward and penalty columns, still to be read as numbers.
pub enum RewardPenalty {
    Default,
    Columns { reward: String, penalty: String },
}

impl RewardPenalty {
    /// `None` for the default reward and penalty, else the two cells.
    pub open spec fn view(&self) -> Option<(Seq<char>, Seq<char>)> {
        match self {
            RewardPenalty::Default => None,
            RewardPenalty::Columns { reward, penalty } => Some((reward@, penalty@)),
        }
    }
}

/// A reward or penalty column that a row lacks, with the reward cell when
/// it was read before the penalty column was found missing.
pub struct ColumnFailure {
    pub error: PrimeclueErr,
    pub reward: Option<String>,
}

impl ColumnFailure {
    pub open spec fn reward_view(&self) -> Option<Seq<char>> {
        match self.reward {
            Some(s) => Some(s@),
            None => None,
        }
    }
}

/// What the reward and penalty columns of a row give.
pub enum RewardPenaltyCells {
    /// `None` for the default reward and penalty, else the two cells.
    Cells(Option<(Seq<char>, Seq<char>)>),
    /// A column is missing; the reward cell is there when it was read first.
    Missing(PrimeclueErr, Option<Seq<char>>),
    /// A column number is 0, so that counting from 1 underflows.
    Panic,
}

/// The reward and penalty cells of `row` under request `r`.
pub open spec fn reward_penalty_of(r: &ClassRequest, row: Seq<Seq<char>>) -> RewardPenaltyCells {
    if !r.custom_reward_penalty_columns {
        RewardPenaltyCells::Cells(None)
    } else if r.reward_column == 0 {
        RewardPenaltyCells::Panic
    } else if r.reward_column - 1 >= row.len() {
        RewardPenaltyCells::Missing(PrimeclueErr::MissingColumn { column: r.reward_column }, None)
    } else if r.penalty_column == 0 {
        RewardPenaltyCells::Panic
    } else if r.penalty_column - 1 >= row.len() {
        RewardPenaltyCells::Missing(
            PrimeclueErr::MissingColumn { column: r.penalty_column },
            Some(row[r.reward_column - 1]),
        )
    } else {
        RewardPenaltyCells::Cells(Some((row[r.reward_column - 1], row[r.penalty_column - 1])))
    }
}

/// The cells among the first `n` of `row` whose position `flags` marks.
pub open spec fn kept_cells(flags: Seq<bool>, row: Seq<Seq<char>>, n: int) -> Seq<Seq<char>>
    decreases n,
{
    if n <= 0 {
        seq![]
    } else {
        let prev = kept_cells(flags, row, n - 1);
        if flags[n - 1] {
            prev.push(row[n - 1])
        } else {
            prev
        }
    }
}

/// The cells of `row` to be read as numbers: those whose position
/// `use_columns` marks, as far as both reach.
pub open spec fn number_cells(use_columns: Seq<bool>, row: Seq<Seq<char>>) -> Seq<Seq<char>> {
    kept_cells(use_columns, row, if use_columns.len() < row.len() { use_columns.len() as int } else { row.len() as int })
}

/// The cells of `row` to be read as numbers, in order.
pub fn number_row_cells(use_columns: &Vec<bool>, row: &Vec<String>) -> (r: Vec<String>)
    ensures
        r.deep_view() == number_cells(use_columns@, row.deep_view()),
{
    let n = if use_columns.len() < row.len() { use_columns.len() } else { row.len() };
    let ghost cells = row.deep_view();
    let mut r: Vec<String> = Vec::new();
    let mut i: usize = 0;
    while i < n
        invariant
            i <= n,
            n <= use_columns@.len(),
            n <= row@.len(),
            cells == row.deep_view(),
            r.deep_view() == kept_cells(use_columns@, cells, i as int),
        decreases n - i,
    {
        if use_columns[i] {
            let ghost before = r.deep_view();
            r.push(row[i].clone());
            assert(r.deep_view() =~= before.push(cells[i as int]));
        }
        i += 1;
    }
    r
}

/// The producer of the classes in column `r.class_column` (counted from 1) of `data`.
pub fn class_producer(r: &ClassRequest, data: &Vec<Vec<String>>) -> (p: Result<
    ClassProducer,
    PrimeclueErr,
>)
    requires
        r.class_column >= 1,
    ensures
        match first_short_row(data.deep_view(), r.class_column - 1, 0) {
            Some(k) => p == Err::<ClassProducer, PrimeclueErr>(
                PrimeclueErr::NoColumn { column: (r.class_column - 1) as usize, row: k as usize },
            ),
            None => p matches Ok(p) && p.column() == r.class_column - 1 && p.classes().wf()
                && p.classes()@ == class_names(data.deep_view(), r.class_column - 1),
        },
{
    let column = r.class_column - 1;
    let classes = build_class_map(data, column)?;
    Ok(ClassProducer::create(column, classes))
}


/// A data point: the number rows `first_row..=last_row` of its data set,
/// its class, and its reward and penalty.
pub struct Point {
    pub first_row: usize,
    pub last_row: usize,
    pub class: Class,
    pub reward_penalty: RewardPenalty,
}

/// A data point as the contracts speak of it.
pub struct PointView {
    pub first_row: int,
    pub last_row: int,
    pub class: Class,
    pub reward_penalty: Option<(Seq<char>, Seq<char>)>,
}

impl Point {
    pub open spec fn view(&self) -> PointView {
        PointView {
            first_row: self.first_row as int,
            last_row: self.last_row as int,
            class: self.class,
            reward_penalty: self.reward_penalty.view(),
        }
    }
}

/// Imported data whose numbers are still text: the class names (class `i`
/// at position `i`), the number cells of every row read, and the points.
pub struct DataSet {
    pub classes: Vec<String>,
    pub rows: Vec<Vec<String>>,
    pub points: Vec<Point>,
}

impl DataSet {
    pub open spec fn points_view(&self) -> Seq<PointView> {
        Seq::new(self.points@.len(), |i: int| self.points@[i].view())
    }

    /// A data set with no classes, rows or points.
    pub fn empty() -> (d: DataSet)
        ensures
            d.classes@.len() == 0,
            d.rows@.len() == 0,
            d.points@.len() == 0,
    {
        DataSet { classes: Vec::new(), rows: Vec::new(), points: Vec::new() }
    }
}

/// An import that stopped: the error, what had been read before it, and
/// the reward cell of the failing row when that was read first.
pub struct ImportFailure {
    pub error: PrimeclueErr,
    pub read: DataSet,
    pub reward: Option<String>,
}

impl ImportFailure {
    pub open spec fn reward_view(&self) -> Option<Seq<char>> {
        match self.reward {
            Some(s) => Some(s@),
            None => None,
        }
    }
}

/// What row `k` contributes once it completes a data point.
pub enum Step {
    Point(PointView),
    Fail(PrimeclueErr, Option<Seq<char>>),
    Panic,
}

/// The data point that row `k` of `rows` completes, with classes `names`.
pub open spec fn step_at(
    r: &ClassRequest,
    rows: Seq<Seq<Seq<char>>>,
    names: Seq<Seq<char>>,
    k: int,
) -> Step {
    match class_of(names, rows[k][r.class_column - 1]) {
        None => Step::Panic,
        Some(class) => match reward_penalty_of(r, rows[k]) {
            RewardPenaltyCells::Cells(rp) => Step::Point(
                PointView {
                    first_row: k + 1 - r.rows_per_set,
                    last_row: k,
                    class,
                    reward_penalty: rp,
                },
            ),
            RewardPenaltyCells::Missing(e, reward) => Step::Fail(e, reward),
            RewardPenaltyCells::Panic => Step::Panic,
        },
    }
}

/// Where the import stands after the first `n` rows.
pub enum Progress {
    Going(Seq<PointView>),
    Stopped { row: int, error: PrimeclueErr, reward: Option<Seq<char>>, points: Seq<PointView> },
    Panicked,
}

/// The import after the first `n` rows: a row completes a point once
/// `rows_per_set` rows have been read.
pub open spec fn progress(
    r: &ClassRequest,
    rows: Seq<Seq<Seq<char>>>,
    names: Seq<Seq<char>>,
    n: int,
) -> Progress
    decreases n,
{
    if n <= 0 {
        Progress::Going(seq![])
    } else {
        match progress(r, rows, names, n - 1) {
            Progress::Going(points) => if n < r.rows_per_set {
                Progress::Going(points)
            } else {
                match step_at(r, rows, names, n - 1) {
                    Step::Point(p) => Progress::Going(points.push(p)),
                    Step::Fail(error, reward) => Progress::Stopped {
                        row: n - 1,
                        error,
                        reward,
                        points,
                    },
                    Step::Panic => Progress::Panicked,
                }
            },
            other => other,
        }
    }
}

/// The rows of the request's content.
pub open spec fn import_rows(r: &ClassRequest) -> Seq<Seq<Seq<char>>> {
    split_rows(r.content@, r.separator@, r.ignore_first_row)
}

/// The number cells of the first `n` rows.
pub open spec fn cells_upto(r: &ClassRequest, rows: Seq<Seq<Seq<char>>>, n: int) -> Seq<
    Seq<Seq<char>>,
> {
    Seq::new(n as nat, |i: int| number_cells(r.import_columns@, rows[i]))
}

/// Whether importing by `r` would fail on an arithmetic underflow or on a
/// completed row whose class cell is empty.
pub open spec fn import_panics(r: &ClassRequest) -> bool {
    let rows = import_rows(r);
    let column = r.class_column - 1;
    ||| r.class_column == 0
    ||| first_short_row(rows, column, 0) is None && progress(
        r,
        rows,
        class_names(rows, column),
        rows.len() as int,
    ) is Panicked
}

proof fn lemma_progress_stays(
    r: &ClassRequest,
    rows: Seq<Seq<Seq<char>>>,
    names: Seq<Seq<char>>,
    m: int,
    n: int,
)
    requires
        0 <= m <= n,
        !(progress(r, rows, names, m) is Going),
    ensures
        progress(r, rows, names, n) == progress(r, rows, names, m),
    decreases n - m,
{
    if m < n {
        lemma_progress_stays(r, rows, names, m, n - 1);
    }
}

proof fn lemma_no_short_row(rows: Seq<Seq<Seq<char>>>, column: int, from: int, i: int)
    requires
        0 <= from <= i < rows.len(),
        first_short_row(rows, column, from) is None,
    ensures
        column < rows[i].len(),
    decreases i - from,
{
    if from < i {
        lemma_no_short_row(rows, column, from + 1, i);
    }
}

/// The row at which importing by `r` would fail on an empty class cell or
/// on a reward or penalty column numbered 0, if any: the rows before it
/// import without such a failure.
pub fn import_panic_row(r: &ClassRequest) -> (p: Option<usize>)
    requires
        r.class_column >= 1,
    ensures
        ({
            let rows = import_rows(r);
            let column = r.class_column - 1;
            let names = class_names(rows, column);
            match p {
                Some(k) => {
                    &&& first_short_row(rows, column, 0) is None
                    &&& k < rows.len()
                    &&& progress(r, rows, names, k as int) is Going
                    &&& progress(r, rows, names, k + 1) is Panicked
                },
                None => !import_panics(r),
            }
        }),
{
    let data = split_to_vec(r.content.as_str(), r.separator.as_str(), r.ignore_first_row);
    let ghost rows = import_rows(r);
    let ghost column = r.class_column - 1;
    let column_index = r.class_column - 1;
    let producer = match class_producer(r, &data) {
        Ok(p) => p,
        Err(_) => {
            return None;
        },
    };
    let ghost names = class_names(rows, column);
    proof {
        assert forall|i: int| 0 <= i < rows.len() implies column < #[trigger] rows[i].len() by {
            lemma_no_short_row(rows, column, 0, i);
        }
        lemma_class_names(rows, column);
    }
    let mut k: usize = 0;
    while k < data.len()
        invariant
            r.class_column >= 1,
            rows == import_rows(r),
            column == r.class_column - 1,
            column_index == column,
            data.deep_view() == rows,
            first_short_row(rows, column, 0) is None,
            names == class_names(rows, column),
            forall|i: int| 0 <= i < rows.len() ==> column < #[trigger] rows[i].len(),
            forall|i: int|
                0 <= i < rows.len() ==> (class_of(names, #[trigger] rows[i][column]) is Some
                    <==> rows[i][column].len() > 0),
            k <= data@.len(),
            progress(r, rows, names, k as int) is Going,
        decreases data@.len() - k,
    {
        if k + 1 < r.rows_per_set {
            k += 1;
            continue;
        }
        assert(rows[k as int] == data@[k as int].deep_view());
        assert(data@[k as int].deep_view().len() == data@[k as int]@.len());
        assert(data@[k as int].deep_view()[column] == data@[k as int]@[column]@);
        let row = &data[k];
        if row[column_index].as_str().is_empty() {
            return Some(k);
        }
        if r.custom_reward_penalty_columns {
            if r.reward_column == 0 {
                return Some(k);
            }
            if r.reward_column - 1 >= row.len() {
                proof {
                    lemma_progress_stays(r, rows, names, k + 1, rows.len() as int);
                }
                return None;
            }
            if r.penalty_column == 0 {
                return Some(k);
            }
            if r.penalty_column - 1 >= row.len() {
                proof {
                    lemma_progress_stays(r, rows, names, k + 1, rows.len() as int);
                }
                return None;
            }
        }
        k += 1;
    }
    None
}

/// What importing the first `n` rows by `r` gives: fails on a row without
/// the class column before any row is read; otherwise the classes, the
/// number cells of the rows read and the points made, up to the first
/// missing reward or penalty column, if any.
pub open spec fn imported(r: &ClassRequest, n: int, res: Result<DataSet, ImportFailure>) -> bool {
    let rows = import_rows(r);
    let column = r.class_column - 1;
    let m = if n < rows.len() { n } else { rows.len() as int };
    match first_short_row(rows, column, 0) {
        Some(k) => res matches Err(f) && f.error == (PrimeclueErr::NoColumn {
            column: column as usize,
            row: k as usize,
        }) && f.read.classes@.len() == 0 && f.read.rows@.len() == 0 && f.read.points@.len() == 0
            && f.reward is None,
        None => {
            let names = class_names(rows, column);
            match progress(r, rows, names, m) {
                Progress::Going(points) => res matches Ok(d) && d.classes.deep_view() == names
                    && d.rows.deep_view() == cells_upto(r, rows, m) && d.points_view() == points,
                Progress::Stopped { row, error, reward, points } => res matches Err(f) && f.error
                    == error && f.reward_view() == reward && f.read.classes.deep_view() == names
                    && f.read.rows.deep_view() == cells_upto(r, rows, row + 1)
                    && f.read.points_view() == points,
                Progress::Panicked => false,
            }
        },
    }
}

/// Whether importing the first `n` rows by `r` gets past the class column
/// and meets no empty class cell and no column numbered 0.
pub open spec fn rows_import(r: &ClassRequest, n: int) -> bool {
    let rows = import_rows(r);
    let column = r.class_column - 1;
    let m = if n < rows.len() { n } else { rows.len() as int };
    &&& r.class_column >= 1
    &&& first_short_row(rows, column, 0) is None ==> !(progress(
        r,
        rows,
        class_names(rows, column),
        m,
    ) is Panicked)
}

/// Reads the rows of the request: collects the classes, takes the number
/// cells of every row, and makes a data point of each window of
/// `rows_per_set` rows, classed by its last row.
pub fn build_data_set(r: &ClassRequest) -> (res: Result<DataSet, ImportFailure>)
    requires
        !import_panics(r),
    ensures
        imported(r, import_rows(r).len() as int, res),
{
    let data = split_to_vec(r.content.as_str(), r.separator.as_str(), r.ignore_first_row);
    read_rows(r, &data, data.len())
}

/// Like `build_data_set`, over the first `n` rows only.
pub fn build_data_set_upto(r: &ClassRequest, n: usize) -> (res: Result<DataSet, ImportFailure>)
    requires
        rows_import(r, n as int),
    ensures
        imported(r, n as int, res),
{
    let data = split_to_vec(r.content.as_str(), r.separator.as_str(), r.ignore_first_row);
    read_rows(r, &data, n)
}

fn read_rows(r: &ClassRequest, data: &Vec<Vec<String>>, n: usize) -> (res: Result<DataSet, ImportFailure>)
    requires
        data.deep_view() == import_rows(r),
        rows_import(r, n as int),
    ensures
        imported(r, n as int, res),
{
    let ghost rows = import_rows(r);
    let ghost column = r.class_column - 1;
    let ghost m = if n < rows.len() { n as int } else { rows.len() as int };
    let producer = match class_producer(r, data) {
        Ok(p) => p,
        Err(error) => {
            return Err(ImportFailure { error, read: DataSet::empty(), reward: None });
        },
    };
    let ghost names = class_names(rows, column);
    let classes = producer.all_classes();
    let mut numbers: Vec<Vec<String>> = Vec::new();
    let mut points: Vec<Point> = Vec::new();
    let mut k: usize = 0;
    assert(Seq::new(points@.len(), |i: int| points@[i].view()) =~= Seq::<PointView>::empty());
    assert(numbers.deep_view() =~= cells_upto(r, rows, 0));
    while k < data.len() && k < n
        invariant
            rows_import(r, n as int),
            r.class_column >= 1,
            rows == import_rows(r),
            column == r.class_column - 1,
            m == (if n < rows.len() { n as int } else { rows.len() as int }),
            data.deep_view() == rows,
            first_short_row(rows, column, 0) is None,
            names == class_names(rows, column),
            producer.column() == column,
            producer.classes().wf(),
            producer.classes()@ == names,
            classes.deep_view() == names,
            k <= m,
            numbers.deep_view() == cells_upto(r, rows, k as int),
            progress(r, rows, names, k as int) == Progress::Going(
                Seq::new(points@.len(), |i: int| points@[i].view()),
            ),
        decreases data@.len() - k,
    {
        let ghost before = numbers.deep_view();
        let ghost done = Seq::new(points@.len(), |i: int| points@[i].view());
        let cells = number_row_cells(&r.import_columns, &data[k]);
        assert(rows[k as int] == data@[k as int].deep_view());
        numbers.push(cells);
        assert(numbers.deep_view() =~= before.push(cells.deep_view()));
        assert(numbers.deep_view() =~= cells_upto(r, rows, k + 1));
        if k + 1 < r.rows_per_set {
            k += 1;
            continue;
        }
        proof {
            lemma_no_short_row(rows, column, 0, k as int);
            if step_at(r, rows, names, k as int) is Panic {
                lemma_progress_stays(r, rows, names, k + 1, m);
            }
        }
        let class = match producer.class(data, k) {
            Ok(Some(c)) => c,
            _ => Class::new(0),
        };
        match r.extract_reward_penalty(&data[k]) {
            Ok(reward_penalty) => {
                let point = Point { first_row: k + 1 - r.rows_per_set, last_row: k, class, reward_penalty };
                points.push(point);
                assert(Seq::new(points@.len(), |i: int| points@[i].view()) =~= done.push(point.view()));
            },
            Err(f) => {
                let read = DataSet { classes, rows: numbers, points };
                proof {
                    lemma_progress_stays(r, rows, names, k + 1, m);
                }
                assert(read.points_view() =~= done);
                return Err(ImportFailure { error: f.error, read, reward: f.reward });
            },
        }
        k += 1;
    }
    let d = DataSet { classes, rows: numbers, points };
    assert(d.points_view() =~= Seq::new(d.points@.len(), |i: int| d.points@[i].view()));
    Ok(d)
}


/// Every non-empty cell of the class column names a class and an empty one
/// names none; the class names are distinct, each is a cell of that column,
/// and there are no more of them than rows.
pub proof fn lemma_class_names(rows: Seq<Seq<Seq<char>>>, column: int)
    requires
        0 <= column,
        forall|i: int| 0 <= i < rows.len() ==> column < #[trigger] rows[i].len(),
    ensures
        class_names(rows, column).no_duplicates(),
        class_names(rows, column).len() <= rows.len(),
        forall|i: int|
            0 <= i < rows.len() ==> (class_of(class_names(rows, column), #[trigger] rows[i][column])
                is Some <==> rows[i][column].len() > 0),
        forall|k: int|
            0 <= k < class_names(rows, column).len() ==> exists|i: int|
                0 <= i < rows.len() && #[trigger] class_names(rows, column)[k] == rows[i][column],
    decreases rows.len(),
{
    if rows.len() > 0 {
        let prev = rows.drop_last();
        lemma_class_names(prev, column);
        let names = class_names(rows, column);
        let before = class_names(prev, column);
        let v = rows.last()[column];
        assert forall|i: int| 0 <= i < rows.len() implies (class_of(names, #[trigger] rows[i][column])
            is Some <==> rows[i][column].len() > 0) by {
            let c = rows[i][column];
            if i < rows.len() - 1 {
                assert(prev[i] == rows[i]);
                if before.contains(c) {
                    let j = choose|j: int| 0 <= j < before.len() && before[j] == c;
                    assert(names[j] == c);
                }
                if names.contains(c) && c.len() == 0 {
                    let j = choose|j: int| 0 <= j < names.len() && names[j] == c;
                    if j < before.len() {
                        assert(before[j] == c);
                    }
                    assert(false);
                }
            } else {
                if v.len() > 0 {
                    if !before.contains(v) {
                        assert(names[names.len() - 1] == v);
                    } else {
                        let j = choose|j: int| 0 <= j < before.len() && before[j] == v;
                        assert(names[j] == v);
                    }
                } else if names.contains(c) {
                    let j = choose|j: int| 0 <= j < names.len() && names[j] == c;
                    assert(before[j] == c);
                    assert(false);
                }
            }
        }
        assert forall|k: int| 0 <= k < names.len() implies exists|i: int|
            0 <= i < rows.len() && #[trigger] names[k] == rows[i][column] by {
            if k < before.len() {
                let i = choose|i: int| 0 <= i < prev.len() && before[k] == prev[i][column];
                assert(prev[i] == rows[i]);
            } else {
                assert(names[k] == rows[rows.len() - 1][column]);
            }
        }
    }
}

proof fn lemma_class_order_at(rows: Seq<Seq<Seq<char>>>, column: int, k: int, l: int, j: int)
    requires
        0 <= column,
        forall|i: int| 0 <= i < rows.len() ==> column < #[trigger] rows[i].len(),
        0 <= k < l < class_names(rows, column).len(),
        0 <= j < rows.len(),
        rows[j][column] == class_names(rows, column)[l],
    ensures
        exists|i: int| 0 <= i < j && #[trigger] rows[i][column] == class_names(rows, column)[k],
    decreases rows.len(),
{
    let prev = rows.drop_last();
    let last = rows.len() - 1;
    lemma_class_names(prev, column);
    let names = class_names(rows, column);
    let before = class_names(prev, column);
    assert forall|i: int| 0 <= i < prev.len() implies column < #[trigger] prev[i].len() by {
        assert(prev[i] == rows[i]);
    }
    assert(names[k] == before[k]);
    let i = if l < before.len() {
        assert(names[l] == before[l]);
        if j < last {
            assert(prev[j] == rows[j]);
            lemma_class_order_at(prev, column, k, l, j);
            choose|i: int| 0 <= i < j && #[trigger] prev[i][column] == before[k]
        } else {
            let j0 = choose|j0: int| 0 <= j0 < prev.len() && #[trigger] before[l] == prev[j0][column];
            lemma_class_order_at(prev, column, k, l, j0);
            choose|i: int| 0 <= i < j0 && #[trigger] prev[i][column] == before[k]
        }
    } else {
        if j < last {
            assert(prev[j] == rows[j]);
            assert(names[l] == rows[last][column]);
            assert(names[l].len() > 0) by {
                lemma_class_names(rows, column);
            }
            assert(class_of(before, prev[j][column]) is Some);
            assert(before.contains(prev[j][column]));
            assert(false);
        }
        choose|i: int| 0 <= i < prev.len() && #[trigger] before[k] == prev[i][column]
    };
    assert(prev[i] == rows[i]);
    assert(rows[i][column] == names[k]);
}

/// Classes are numbered in the order in which their names first occur: a
/// row holding the name of a later class comes after some row holding the
/// name of each earlier class.
pub proof fn lemma_class_order(rows: Seq<Seq<Seq<char>>>, column: int)
    requires
        0 <= column,
        forall|i: int| 0 <= i < rows.len() ==> column < #[trigger] rows[i].len(),
    ensures
        forall|k: int, l: int, j: int|
            #![trigger class_names(rows, column)[k], class_names(rows, column)[l], rows[j]]
            0 <= k < l < class_names(rows, column).len() && 0 <= j < rows.len() && rows[j][column]
                == class_names(rows, column)[l] ==> cell_before(rows, column, class_names(rows, column)[k], j),
{
    assert forall|k: int, l: int, j: int|
        #![trigger class_names(rows, column)[k], class_names(rows, column)[l], rows[j]]
        0 <= k < l < class_names(rows, column).len() && 0 <= j < rows.len() && rows[j][column]
            == class_names(rows, column)[l] implies cell_before(rows, column, class_names(rows, column)[k], j) by {
        lemma_class_order_at(rows, column, k, l, j);
    }
}

/// Whether some row before row `j` holds `name` in column `column`.
pub open spec fn cell_before(rows: Seq<Seq<Seq<char>>>, column: int, name: Seq<char>, j: int) -> bool {
    exists|i: int| 0 <= i < j && #[trigger] rows[i][column] == name
}

/// A data point covers `rows_per_set` consecutive rows ending with the row
/// it is made at; points are made at consecutive rows, the first once
/// `rows_per_set` rows have been read; each is classed by its last row.
pub proof fn lemma_points_shape(
    r: &ClassRequest,
    rows: Seq<Seq<Seq<char>>>,
    names: Seq<Seq<char>>,
    n: int,
)
    requires
        0 <= n <= rows.len(),
        progress(r, rows, names, n) is Going,
    ensures
        ({
            let points = progress(r, rows, names, n)->Going_0;
            let first = if r.rows_per_set == 0 { 0 } else { r.rows_per_set - 1 };
            &&& points.len() == if n <= first { 0 } else { n - first }
            &&& forall|i: int|
                0 <= i < points.len() ==> {
                    &&& (#[trigger] points[i]).last_row == first + i
                    &&& points[i].last_row - points[i].first_row + 1 == r.rows_per_set
                    &&& Some(points[i].class) == class_of(
                        names,
                        rows[points[i].last_row][r.class_column - 1],
                    )
                }
        }),
    decreases n,
{
    if n > 0 {
        lemma_points_shape(r, rows, names, n - 1);
        let first = if r.rows_per_set == 0 { 0 } else { r.rows_per_set - 1 };
        let prev = progress(r, rows, names, n - 1)->Going_0;
        let points = progress(r, rows, names, n)->Going_0;
        if n >= r.rows_per_set {
            assert(points.len() == prev.len() + 1);
            assert forall|i: int| 0 <= i < points.len() implies (#[trigger] points[i]).last_row
                == first + i by {
                if i < prev.len() {
                    assert(points[i] == prev[i]);
                }
            }
        }
    }
}

/// The classes found in imported data, as sent back to whoever asked.
pub struct ClassResponse {
    classes: Vec<String>,
}

impl ClassResponse {
    /// The class names held.
    pub closed spec fn classes_view(&self) -> Seq<Seq<char>> {
        self.classes.deep_view()
    }

    /// A response holding `classes`.
    pub fn new(classes: Vec<String>) -> (r: ClassResponse)
        ensures
            r.classes_view() == classes.deep_view(),
    {
        ClassResponse { classes }
    }

    /// The class names.
    pub fn classes(&self) -> (c: &Vec<String>)
        ensures
            c.deep_view() == self.classes_view(),
    {
        &self.classes
    }
}

/// The non-blank lines are the trimmed lines that are not empty, every one
/// of them, in order, repeats included.
pub proof fn lemma_nonblank_lines(lines: Seq<Seq<char>>)
    ensures
        nonblank(lines) == lines.map_values(|l: Seq<char>| trim(l)).filter(
            |l: Seq<char>| l.len() > 0,
        ),
    decreases lines.len(),
{
    broadcast use Seq::lemma_filter_push;

    let f = |l: Seq<char>| trim(l);
    let keep = |l: Seq<char>| l.len() > 0;
    if lines.len() == 0 {
        reveal(Seq::filter);
        assert(lines.map_values(f) =~= Seq::<Seq<char>>::empty());
    } else {
        lemma_nonblank_lines(lines.drop_last());
        assert(lines.map_values(f) =~= lines.drop_last().map_values(f).push(trim(lines.last())));
        lines.drop_last().map_values(f).lemma_filter_push(trim(lines.last()), keep);
    }
}

/// The rows of `content` are the cells of its non-blank lines: each line
/// whose trim is not empty gives one row, repeats included, the first of
/// them dropped when it is a header, and each row is that trimmed line
/// split on the separator.
pub proof fn lemma_split_rows(content: Seq<char>, separator: Seq<char>, ignore_first_row: bool)
    ensures
        ({
            let lines = split(content, seq!['\n']).map_values(|l: Seq<char>| trim(l)).filter(
                |l: Seq<char>| l.len() > 0,
            );
            let data = if ignore_first_row && lines.len() > 0 {
                lines.drop_first()
            } else {
                lines
            };
            &&& split_rows(content, separator, ignore_first_row).len() == data.len()
            &&& forall|k: int|
                0 <= k < data.len() ==> #[trigger] split_rows(content, separator, ignore_first_row)[k]
                    == split(data[k], separator)
        }),
{
    lemma_nonblank_lines(split(content, seq!['\n']));
}

/// The first line is the trimmed text before the first line break (all of
/// it when there is none).
pub proof fn lemma_first_line(content: Seq<char>, p: int)
    requires
        0 <= p <= content.len(),
        forall|i: int| 0 <= i < p ==> content[i] != '\n',
        p == content.len() || content[p] == '\n',
    ensures
        first_line(content) == trim(content.take(p)),
{
    let nl = seq!['\n'];
    lemma_first_occurrence_bounds(content, nl, 0);
    match first_occurrence(content, nl, 0) {
        Some(q) => {
            assert(content.subrange(q, q + 1) == nl);
            assert(content[q] == content.subrange(q, q + 1)[0]);
            if p < q {
                assert(content.subrange(p, p + 1) =~= nl);
                assert(occurs_at(content, nl, p));
            }
            if q < p {
                assert(content[q] != '\n');
            }
            assert(content.subrange(0, q) =~= content.take(p));
        },
        None => {
            if p < content.len() {
                assert(content.subrange(p, p + 1) =~= nl);
                assert(occurs_at(content, nl, p));
            }
            assert(content.subrange(0, content.len() as int) =~= content.take(p));
        },
    }
}

/// The header cells are the first line split on the given separator:
/// joined with it they give back the first line, none holds a non-empty
/// separator, and the names follow them. Without a header there are as many
/// empty names as there would be header cells.
pub proof fn lemma_header_row(content: Seq<char>, separator: Seq<char>, names: Seq<Seq<char>>)
    ensures
        ({
            let with = header_row(content, separator, true, names);
            let without = header_row(content, separator, false, names);
            let k = with.len() - names.len();
            &&& k >= 1
            &&& with.skip(k) == names
            &&& join(with.take(k), separator) == first_line(content)
            &&& separator.len() > 0 ==> forall|j: int, q: int|
                0 <= j < k ==> !#[trigger] occurs_at(with[j], separator, q)
            &&& without.len() == with.len()
            &&& without.skip(k) == names
            &&& forall|j: int| 0 <= j < k ==> (#[trigger] without[j]).len() == 0
        }),
{
    let first = first_line(content);
    let cells = split(first, separator);
    lemma_split_nonempty(first, separator);
    lemma_split_join(first, separator);
    let with = header_row(content, separator, true, names);
    let k = cells.len() as int;
    assert(with.take(k) =~= cells);
    assert(with.skip(k) =~= names);
    assert(header_row(content, separator, false, names).skip(k) =~= names);
    if separator.len() > 0 {
        assert forall|j: int, q: int| 0 <= j < k implies !#[trigger] occurs_at(with[j], separator, q) by {
            lemma_split_pieces_free(first, separator, j, q);
        }
    }
}

/// The cells to read as numbers are exactly the cells of `row` at the
/// positions that `use_columns` marks, as far as both reach, in order.
pub proof fn lemma_number_cells(use_columns: Seq<bool>, row: Seq<Seq<char>>, n: int)
    requires
        0 <= n <= use_columns.len(),
        n <= row.len(),
    ensures
        kept_cells(use_columns, row, n) == Seq::new(n as nat, |i: int| i).filter(
            |i: int| use_columns[i],
        ).map_values(|i: int| row[i]),
    decreases n,
{
    broadcast use Seq::lemma_filter_push;

    let pred = |i: int| use_columns[i];
    let at = |i: int| row[i];
    if n == 0 {
        reveal(Seq::filter);
        assert(Seq::new(0, |i: int| i).filter(pred) =~= Seq::<int>::empty());
        assert(Seq::<int>::empty().map_values(at) =~= Seq::<Seq<char>>::empty());
    } else {
        lemma_number_cells(use_columns, row, n - 1);
        let before = Seq::new((n - 1) as nat, |i: int| i);
        assert(Seq::new(n as nat, |i: int| i) =~= before.push(n - 1));
        before.lemma_filter_push(n - 1, pred);
        let f = before.filter(pred);
        assert(f.push(n - 1).map_values(at) =~= f.map_values(at).push(row[n - 1]));
    }
}

/// Each data point carries the reward and penalty cells of the row it is
/// made at: the cell of column `reward_column` as the reward and that of
/// `penalty_column` as the penalty, whatever their order; none when they
/// are not read from the rows.
pub proof fn lemma_points_reward_penalty(
    r: &ClassRequest,
    rows: Seq<Seq<Seq<char>>>,
    names: Seq<Seq<char>>,
    n: int,
)
    requires
        0 <= n <= rows.len(),
        progress(r, rows, names, n) is Going,
    ensures
        ({
            let points = progress(r, rows, names, n)->Going_0;
            forall|i: int|
                0 <= i < points.len() ==> {
                    let row = rows[(#[trigger] points[i]).last_row];
                    &&& !r.custom_reward_penalty_columns ==> points[i].reward_penalty is None
                    &&& r.custom_reward_penalty_columns ==> points[i].reward_penalty == Some(
                        (row[r.reward_column - 1], row[r.penalty_column - 1]),
                    )
                    &&& r.custom_reward_penalty_columns ==> 1 <= r.reward_column <= row.len()
                        && 1 <= r.penalty_column <= row.len()
                }
        }),
    decreases n,
{
    if n > 0 {
        lemma_points_reward_penalty(r, rows, names, n - 1);
        let prev = progress(r, rows, names, n - 1)->Going_0;
        let points = progress(r, rows, names, n)->Going_0;
        if n >= r.rows_per_set {
            assert forall|i: int| 0 <= i < prev.len() implies points[i] == prev[i] by {}
        }
    }
}

/// The row that lacks the class column is the first such row: every row
/// before it has the column, and when there is none every row has it.
pub proof fn lemma_first_short_row(rows: Seq<Seq<Seq<char>>>, column: int)
    ensures
        first_short_row(rows, column, 0) matches Some(k) ==> 0 <= k < rows.len() && column
            >= rows[k].len() && forall|i: int| 0 <= i < k ==> column < #[trigger] rows[i].len(),
        first_short_row(rows, column, 0) is None ==> forall|i: int|
            0 <= i < rows.len() ==> column < #[trigger] rows[i].len(),
{
    lemma_first_short_row_from(rows, column, 0);
}

proof fn lemma_first_short_row_from(rows: Seq<Seq<Seq<char>>>, column: int, from: int)
    requires
        0 <= from,
    ensures
        first_short_row(rows, column, from) matches Some(k) ==> from <= k < rows.len() && column
            >= rows[k].len() && forall|i: int| from <= i < k ==> column < #[trigger] rows[i].len(),
        first_short_row(rows, column, from) is None ==> forall|i: int|
            from <= i < rows.len() ==> column < #[trigger] rows[i].len(),
    decreases rows.len() - from,
{
    if from < rows.len() && column < rows[from].len() {
        lemma_first_short_row_from(rows, column, from + 1);
    }
}

/// An import stops only at a row that completes a point, when reward and
/// penalty come from columns and the row lacks one of them: the reward
/// column first, then the penalty column, whose failure carries the reward
/// cell read before it.
pub proof fn lemma_import_stops(
    r: &ClassRequest,
    rows: Seq<Seq<Seq<char>>>,
    names: Seq<Seq<char>>,
    n: int,
)
    requires
        0 <= n <= rows.len(),
    ensures
        progress(r, rows, names, n) matches Progress::Stopped { row, error, reward, points } ==> {
            &&& 0 <= row < n
            &&& row + 1 >= r.rows_per_set
            &&& r.custom_reward_penalty_columns
            &&& r.reward_column >= 1
            &&& (r.reward_column > rows[row].len() && error == (PrimeclueErr::MissingColumn {
                column: r.reward_column,
            }) && reward is None) || (r.reward_column <= rows[row].len() && r.penalty_column >= 1
                && r.penalty_column > rows[row].len() && error == (PrimeclueErr::MissingColumn {
                column: r.penalty_column,
            }) && reward == Some(rows[row][r.reward_column - 1]))
        },
    decreases n,
{
    if n > 0 {
        lemma_import_stops(r, rows, names, n - 1);
    }
}

} // verus!
