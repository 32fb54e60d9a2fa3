//! The grid editor: a cursor-driven state machine that mutates a numeric
//! table of text cells, with labeled rows and columns, one key event at a
//! time.
//!
//! The cursor `(row, col)` ranges over `[0, rows] x [0, cols]`: row 0
//! addresses a column label, column 0 a row label, `(0,0)` the corner
//! label, and everything else the data cell at `(row-1, col-1)`. Directional
//! keys clamp at the edges; characters append to the addressed text; erase
//! removes its last character. The caller renders after each step and feeds
//! the next key; the terminate key is the only way out of the loop.
use vstd::prelude::*;

verus! {

/// One logical key event, as the editor understands it.
#[derive(Clone, Copy, Debug)]
pub enum Key {
    Up,
    Down,
    Left,
    Right,
    Character(char),
    Erase,
    Finish,
    Other,
}

/// The table shape the editor works on: a rectangular grid, one row label
/// per row plus a corner label, one column label per column.
pub open spec fn table_wf(
    table: Seq<Vec<String>>,
    column_labels: Seq<String>,
    row_labels: Seq<String>,
) -> bool {
    &&& table.len() >= 1
    &&& row_labels.len() == table.len() + 1
    &&& column_labels.len() == table[0].len()
    &&& forall|i: int| 0 <= i < table.len() ==> (#[trigger] table[i]).len() == table[0].len()
}

/// Where a directional key moves the cursor: one step, clamped to
/// `[0, rows] x [0, cols]`, and no move at all for any other key.
pub open spec fn spec_move(pos: (int, int), key: Key, rows: int, cols: int) -> (int, int) {
    match key {
        Key::Up => if pos.0 > 0 {
            (pos.0 - 1, pos.1)
        } else {
            pos
        },
        Key::Down => if pos.0 < rows {
            (pos.0 + 1, pos.1)
        } else {
            pos
        },
        Key::Left => if pos.1 > 0 {
            (pos.0, pos.1 - 1)
        } else {
            pos
        },
        Key::Right => if pos.1 < cols {
            (pos.0, pos.1 + 1)
        } else {
            pos
        },
        _ => pos,
    }
}

/// The cursor after a whole sequence of keys.
pub open spec fn spec_move_seq(pos: (int, int), keys: Seq<Key>, rows: int, cols: int) -> (int, int)
    decreases keys.len(),
{
    if keys.len() == 0 {
        pos
    } else {
        spec_move(spec_move_seq(pos, keys.drop_last(), rows, cols), keys.last(), rows, cols)
    }
}

/// The cursor law: under any sequence of key events whatsoever, a cursor
/// that starts inside `[0, rows] x [0, cols]` never leaves it.
pub proof fn lemma_cursor_stays_in_bounds(pos: (int, int), keys: Seq<Key>, rows: int, cols: int)
    requires
        0 <= pos.0 <= rows,
        0 <= pos.1 <= cols,
    ensures
        0 <= spec_move_seq(pos, keys, rows, cols).0 <= rows,
        0 <= spec_move_seq(pos, keys, rows, cols).1 <= cols,
    decreases keys.len(),
{
    if keys.len() > 0 {
        lemma_cursor_stays_in_bounds(pos, keys.drop_last(), rows, cols);
    }
}

/// One text grew by exactly the pushed character; everything else is
/// untouched.
pub open spec fn labels_pushed_at(old_s: Seq<String>, new_s: Seq<String>, k: int, ch: char) -> bool {
    &&& new_s.len() == old_s.len()
    &&& (forall|i: int| 0 <= i < old_s.len() && i != k ==> #[trigger] new_s[i] == old_s[i])
    &&& new_s[k]@ == old_s[k]@.push(ch)
}

/// What erasing does to a text: drops the last character, or nothing when
/// it is already empty.
pub open spec fn text_erased(old_t: Seq<char>, new_t: Seq<char>) -> bool {
    if old_t.len() == 0 {
        new_t == old_t
    } else {
        new_t == old_t.drop_last()
    }
}

/// One text was erased; everything else is untouched.
pub open spec fn labels_erased_at(old_s: Seq<String>, new_s: Seq<String>, k: int) -> bool {
    &&& new_s.len() == old_s.len()
    &&& (forall|i: int| 0 <= i < old_s.len() && i != k ==> #[trigger] new_s[i] == old_s[i])
    &&& text_erased(old_s[k]@, new_s[k]@)
}

/// One cell's text grew by exactly the pushed character; everything else is
/// untouched.
pub open spec fn grid_pushed_at(
    old_t: Seq<Vec<String>>,
    new_t: Seq<Vec<String>>,
    r: int,
    c: int,
    ch: char,
) -> bool {
    &&& new_t.len() == old_t.len()
    &&& (forall|i: int| 0 <= i < old_t.len() && i != r ==> #[trigger] new_t[i] == old_t[i])
    &&& new_t[r]@.len() == old_t[r]@.len()
    &&& (forall|j: int| 0 <= j < old_t[r]@.len() && j != c ==> #[trigger] new_t[r]@[j] == old_t[r]@[j])
    &&& new_t[r]@[c]@ == old_t[r]@[c]@.push(ch)
}

/// One cell's text was erased; everything else is untouched.
pub open spec fn grid_erased_at(
    old_t: Seq<Vec<String>>,
    new_t: Seq<Vec<String>>,
    r: int,
    c: int,
) -> bool {
    &&& new_t.len() == old_t.len()
    &&& (forall|i: int| 0 <= i < old_t.len() && i != r ==> #[trigger] new_t[i] == old_t[i])
    &&& new_t[r]@.len() == old_t[r]@.len()
    &&& (forall|j: int| 0 <= j < old_t[r]@.len() && j != c ==> #[trigger] new_t[r]@[j] == old_t[r]@[j])
    &&& text_erased(old_t[r]@[c]@, new_t[r]@[c]@)
}

/// Relies on String::push: appends the given character to the end of the
/// string.
#[verifier::external_body]
pub(crate) fn push_char(s: &mut String, c: char)
    ensures
        final(s)@ == old(s)@.push(c),
{
    s.push(c);
}

/// Relies on String::pop: removes and returns the last character of the
/// string, or returns None when the string is empty.
#[verifier::external_body]
pub(crate) fn pop_char(s: &mut String) -> (r: Option<char>)
    ensures
        old(s)@.len() == 0 ==> final(s)@ == old(s)@ && r is None,
        old(s)@.len() > 0 ==> final(s)@ == old(s)@.drop_last() && r == Some(old(s)@.last()),
{
    s.pop()
}

/// Appends `ch` to the text the cursor addresses: the row label when
/// `col == 0`, the column label when `row == 0`, and the data cell at
/// `(row-1, col-1)` otherwise.
pub fn add_to_table(
    table: &mut Vec<Vec<String>>,
    column_labels: &mut Vec<String>,
    row_labels: &mut Vec<String>,
    current_pos: (usize, usize),
    ch: char,
)
    requires
        table_wf(old(table)@, old(column_labels)@, old(row_labels)@),
        current_pos.0 <= old(table)@.len(),
        current_pos.1 <= old(table)@[0].len(),
    ensures
        table_wf(final(table)@, final(column_labels)@, final(row_labels)@),
        current_pos.1 == 0 ==> {
            &&& labels_pushed_at(old(row_labels)@, final(row_labels)@, current_pos.0 as int, ch)
            &&& final(table)@ == old(table)@
            &&& final(column_labels)@ == old(column_labels)@
        },
        current_pos.1 > 0 && current_pos.0 == 0 ==> {
            &&& labels_pushed_at(
                old(column_labels)@,
                final(column_labels)@,
                current_pos.1 - 1,
                ch,
            )
            &&& final(table)@ == old(table)@
            &&& final(row_labels)@ == old(row_labels)@
        },
        current_pos.1 > 0 && current_pos.0 > 0 ==> {
            &&& grid_pushed_at(
                old(table)@,
                final(table)@,
                current_pos.0 - 1,
                current_pos.1 - 1,
                ch,
            )
            &&& final(column_labels)@ == old(column_labels)@
            &&& final(row_labels)@ == old(row_labels)@
        },
{
    let (r, c) = current_pos;
    if c == 0 {
        push_char(&mut row_labels[r], ch);
    } else if r == 0 {
        push_char(&mut column_labels[c - 1], ch);
    } else {
        push_char(&mut table[r - 1][c - 1], ch);
    }
}

/// Erases the last character of the text the cursor addresses; a no-op when
/// that text is already empty. Characters are removed whole, never bytes.
pub fn delete_item_in_table(
    table: &mut Vec<Vec<String>>,
    column_labels: &mut Vec<String>,
    row_labels: &mut Vec<String>,
    current_pos: (usize, usize),
)
    requires
        table_wf(old(table)@, old(column_labels)@, old(row_labels)@),
        current_pos.0 <= old(table)@.len(),
        current_pos.1 <= old(table)@[0].len(),
    ensures
        table_wf(final(table)@, final(column_labels)@, final(row_labels)@),
        current_pos.1 == 0 ==> {
            &&& labels_erased_at(old(row_labels)@, final(row_labels)@, current_pos.0 as int)
            &&& final(table)@ == old(table)@
            &&& final(column_labels)@ == old(column_labels)@
        },
        current_pos.1 > 0 && current_pos.0 == 0 ==> {
            &&& labels_erased_at(old(column_labels)@, final(column_labels)@, current_pos.1 - 1)
            &&& final(table)@ == old(table)@
            &&& final(row_labels)@ == old(row_labels)@
        },
        current_pos.1 > 0 && current_pos.0 > 0 ==> {
            &&& grid_erased_at(old(table)@, final(table)@, current_pos.0 - 1, current_pos.1 - 1)
            &&& final(column_labels)@ == old(column_labels)@
            &&& final(row_labels)@ == old(row_labels)@
        },
{
    let (r, c) = current_pos;
    if c == 0 {
        let _ = pop_char(&mut row_labels[r]);
    } else if r == 0 {
        let _ = pop_char(&mut column_labels[c - 1]);
    } else {
        let _ = pop_char(&mut table[r - 1][c - 1]);
    }
}

/// Moves the cursor one step for a directional key, clamped to the table's
/// bounds; any other key leaves it in place.
pub fn move_cursor(pos: (usize, usize), key: &Key, rows: usize, cols: usize) -> (np: (
    usize,
    usize,
))
    requires
        pos.0 <= rows,
        pos.1 <= cols,
    ensures
        (np.0 as int, np.1 as int) == spec_move(
            (pos.0 as int, pos.1 as int),
            *key,
            rows as int,
            cols as int,
        ),
        np.0 <= rows,
        np.1 <= cols,
{
    match key {
        Key::Up => {
            if pos.0 > 0 {
                (pos.0 - 1, pos.1)
            } else {
                pos
            }
        },
        Key::Down => {
            if pos.0 < rows {
                (pos.0 + 1, pos.1)
            } else {
                pos
            }
        },
        Key::Left => {
            if pos.1 > 0 {
                (pos.0, pos.1 - 1)
            } else {
                pos
            }
        },
        Key::Right => {
            if pos.1 < cols {
                (pos.0, pos.1 + 1)
            } else {
                pos
            }
        },
        _ => pos,
    }
}

/// One full editor transition: moves the cursor, edits the addressed text,
/// or finishes, according to the key. Returns whether the terminate key was
/// pressed — the only way the editing loop ends.
///
/// The caller re-renders the table after every step and blocks for the next
/// key; both stay outside the state machine.
pub fn edit_step(
    table: &mut Vec<Vec<String>>,
    column_labels: &mut Vec<String>,
    row_labels: &mut Vec<String>,
    pos: &mut (usize, usize),
    key: &Key,
) -> (finished: bool)
    requires
        table_wf(old(table)@, old(column_labels)@, old(row_labels)@),
        (*old(pos)).0 <= old(table)@.len(),
        (*old(pos)).1 <= old(table)@[0].len(),
    ensures
        table_wf(final(table)@, final(column_labels)@, final(row_labels)@),
        final(table)@.len() == old(table)@.len(),
        final(table)@[0].len() == old(table)@[0].len(),
        (*final(pos)).0 <= final(table)@.len(),
        (*final(pos)).1 <= final(table)@[0].len(),
        finished <==> *key is Finish,
        (*key is Up || *key is Down || *key is Left || *key is Right) ==> {
            &&& ((*final(pos)).0 as int, (*final(pos)).1 as int) == spec_move(
                ((*old(pos)).0 as int, (*old(pos)).1 as int),
                *key,
                old(table)@.len() as int,
                old(table)@[0].len() as int,
            )
            &&& final(table)@ == old(table)@
            &&& final(column_labels)@ == old(column_labels)@
            &&& final(row_labels)@ == old(row_labels)@
        },
        *key matches Key::Character(ch) ==> *final(pos) == *old(pos) && {
            let p = *old(pos);
            &&& (p.1 == 0 ==> labels_pushed_at(old(row_labels)@, final(row_labels)@, p.0 as int, ch)
                && final(table)@ == old(table)@ && final(column_labels)@ == old(column_labels)@)
            &&& (p.1 > 0 && p.0 == 0 ==> labels_pushed_at(
                old(column_labels)@,
                final(column_labels)@,
                p.1 - 1,
                ch,
            ) && final(table)@ == old(table)@ && final(row_labels)@ == old(row_labels)@)
            &&& (p.1 > 0 && p.0 > 0 ==> grid_pushed_at(old(table)@, final(table)@, p.0 - 1, p.1 - 1, ch)
                && final(column_labels)@ == old(column_labels)@ && final(row_labels)@ == old(
                row_labels,
            )@)
        },
        *key is Erase ==> *final(pos) == *old(pos) && {
            let p = *old(pos);
            &&& (p.1 == 0 ==> labels_erased_at(old(row_labels)@, final(row_labels)@, p.0 as int)
                && final(table)@ == old(table)@ && final(column_labels)@ == old(column_labels)@)
            &&& (p.1 > 0 && p.0 == 0 ==> labels_erased_at(
                old(column_labels)@,
                final(column_labels)@,
                p.1 - 1,
            ) && final(table)@ == old(table)@ && final(row_labels)@ == old(row_labels)@)
            &&& (p.1 > 0 && p.0 > 0 ==> grid_erased_at(old(table)@, final(table)@, p.0 - 1, p.1 - 1)
                && final(column_labels)@ == old(column_labels)@ && final(row_labels)@ == old(
                row_labels,
            )@)
        },
        (*key is Finish || *key is Other) ==> *final(pos) == *old(pos),
        (*key is Finish || *key is Other) ==> {
            &&& final(table)@ == old(table)@
            &&& final(column_labels)@ == old(column_labels)@
            &&& final(row_labels)@ == old(row_labels)@
        },
{
    let rows = table.len();
    let cols = table[0].len();
    match key {
        Key::Up | Key::Down | Key::Left | Key::Right => {
            *pos = move_cursor(*pos, key, rows, cols);
            false
        },
        Key::Character(ch) => {
            add_to_table(table, column_labels, row_labels, *pos, *ch);
            false
        },
        Key::Erase => {
            delete_item_in_table(table, column_labels, row_labels, *pos);
            false
        },
        Key::Finish => true,
        Key::Other => false,
    }
}

/// A fresh `rows x cols` grid of empty cells.
pub fn empty_cells(rows: usize, cols: usize) -> (t: Vec<Vec<String>>)
    requires
        rows >= 1,
        cols >= 1,
    ensures
        t@.len() == rows,
        forall|i: int| 0 <= i < rows ==> (#[trigger] t@[i])@.len() == cols,
        forall|i: int, j: int| 0 <= i < rows && 0 <= j < cols ==> (#[trigger] t@[i]@[j])@.len() == 0,
{
    let mut t: Vec<Vec<String>> = Vec::new();
    let mut i: usize = 0;
    while i < rows
        invariant
            i <= rows,
            t@.len() == i,
            forall|k: int| 0 <= k < i ==> (#[trigger] t@[k])@.len() == cols,
            forall|k: int, j: int| 0 <= k < i && 0 <= j < cols ==> (#[trigger] t@[k]@[j])@.len() == 0,
        decreases rows - i,
    {
        let mut row: Vec<String> = Vec::new();
        let mut j: usize = 0;
        while j < cols
            invariant
                j <= cols,
                row@.len() == j,
                forall|k: int| 0 <= k < j ==> (#[trigger] row@[k])@.len() == 0,
            decreases cols - j,
        {
            row.push(String::new());
            j = j + 1;
        }
        t.push(row);
        i = i + 1;
    }
    t
}

} // verus!
