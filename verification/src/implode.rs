//! Imploding a table: consecutive rows that differ only in the chosen
//! columns are collapsed into one, the values of the chosen columns joined
//! with a separator.

use vstd::prelude::*;
use vstd::string::StringSliceAdditionalSpecFns;
use crate::parser::{find, find_byte, slice_of, write_bytes, COMMA};
use crate::text::{bytes_eq, copy_bytes, numeral_value, parse_integer};

verus! {

/// A row of fields.
pub type Row = Seq<Seq<u8>>;

/// What a row of byte vectors holds.
pub open spec fn row_view(row: Seq<Vec<u8>>) -> Row {
    Seq::new(row.len(), |i: int| row[i]@)
}

/// What a table of byte vectors holds.
pub open spec fn table_view(rows: Seq<Vec<Vec<u8>>>) -> Seq<Row> {
    Seq::new(rows.len(), |i: int| row_view(rows[i]@))
}

/// Two rows belong together: they are as long as each other and agree in
/// every column that is not chosen.
pub open spec fn same_group(a: Row, b: Row, columns: Seq<usize>) -> bool {
    &&& a.len() == b.len()
    &&& forall|i: int| 0 <= i < a.len() && !columns.contains(i as usize) ==> #[trigger] a[i] == b[i]
}

/// The row that stands for `first` and `next` together: in the chosen
/// columns the value of `first`, the separator and the value of `next`; in
/// the others the value of `first`.
pub open spec fn merged(first: Row, next: Row, columns: Seq<usize>, sep: Seq<u8>) -> Row {
    Seq::new(
        first.len(),
        |i: int|
            if columns.contains(i as usize) {
                first[i] + sep + next[i]
            } else {
                first[i]
            },
    )
}

/// The table with every run of rows that belong together collapsed into
/// one row.
pub open spec fn imploded(rows: Seq<Row>, columns: Seq<usize>, sep: Seq<u8>) -> Seq<Row>
    decreases rows.len(),
{
    if rows.len() == 0 {
        Seq::empty()
    } else {
        let earlier = imploded(rows.drop_last(), columns, sep);
        if earlier.len() > 0 && same_group(earlier.last(), rows.last(), columns) {
            earlier.drop_last().push(merged(earlier.last(), rows.last(), columns, sep))
        } else {
            earlier.push(rows.last())
        }
    }
}

/// Whether `column` is among the chosen ones.
fn is_chosen(columns: &Vec<usize>, column: usize) -> (r: bool)
    ensures
        r == columns@.contains(column),
{
    let mut i: usize = 0;
    while i < columns.len()
        invariant
            i <= columns@.len(),
            forall|j: int| 0 <= j < i ==> columns@[j] != column,
        decreases columns@.len() - i,
    {
        if columns[i] == column {
            return true;
        }
        i += 1;
    }
    false
}

/// Whether two rows belong together.
fn belong_together(a: &Vec<Vec<u8>>, b: &Vec<Vec<u8>>, columns: &Vec<usize>) -> (r: bool)
    ensures
        r == same_group(row_view(a@), row_view(b@), columns@),
{
    if a.len() != b.len() {
        return false;
    }
    let mut i: usize = 0;
    while i < a.len()
        invariant
            i <= a@.len(),
            a@.len() == b@.len(),
            forall|j: int|
                0 <= j < i && !columns@.contains(j as usize) ==> #[trigger] row_view(a@)[j]
                    == row_view(b@)[j],
        decreases a@.len() - i,
    {
        if !is_chosen(columns, i) && !bytes_eq(a[i].as_slice(), b[i].as_slice()) {
            assert(row_view(a@)[i as int] != row_view(b@)[i as int]);
            return false;
        }
        i += 1;
    }
    true
}

/// A copy of a row.
fn copy_row(row: &Vec<Vec<u8>>) -> (r: Vec<Vec<u8>>)
    ensures
        row_view(r@) == row_view(row@),
{
    let mut copy: Vec<Vec<u8>> = Vec::new();
    let mut i: usize = 0;
    while i < row.len()
        invariant
            i <= row@.len(),
            copy@.len() == i,
            forall|j: int| 0 <= j < i ==> (#[trigger] copy@[j])@ == row@[j]@,
        decreases row@.len() - i,
    {
        copy.push(copy_bytes(row[i].as_slice()));
        i += 1;
    }
    assert(row_view(copy@) =~= row_view(row@));
    copy
}

/// Joins the chosen fields of `next` onto those of `first`.
fn merge_into(first: &mut Vec<Vec<u8>>, next: &Vec<Vec<u8>>, columns: &Vec<usize>, sep: &[u8])
    requires
        old(first)@.len() == next@.len(),
    ensures
        row_view(final(first)@) == merged(row_view(old(first)@), row_view(next@), columns@, sep@),
{
    let ghost before = row_view(first@);
    let ghost other = row_view(next@);
    let mut i: usize = 0;
    while i < first.len()
        invariant
            i <= first@.len(),
            first@.len() == next@.len(),
            first@.len() == before.len(),
            other == row_view(next@),
            forall|j: int|
                0 <= j < i ==> (#[trigger] first@[j])@ == merged(before, other, columns@, sep@)[j],
            forall|j: int| i <= j < first@.len() ==> (#[trigger] first@[j])@ == before[j],
        decreases first@.len() - i,
    {
        if is_chosen(columns, i) {
            let ghost held = first@;
            write_bytes(sep, &mut first[i]);
            let ghost mid = first@;
            proof {
                assert(mid.len() == held.len());
                assert forall|j: int| 0 <= j < held.len() && j != i implies mid[j] == held[j] by {}
            }
            write_bytes(next[i].as_slice(), &mut first[i]);
            proof {
                assert(first@.len() == mid.len());
                assert forall|j: int| 0 <= j < mid.len() && j != i implies first@[j] == mid[j] by {}
            }
        }
        i += 1;
    }
    assert(row_view(first@) =~= merged(before, other, columns@, sep@));
}

/// Collapses every run of consecutive rows that differ only in the chosen
/// columns into one row.
pub fn implode_rows(rows: &Vec<Vec<Vec<u8>>>, columns: &Vec<usize>, sep: &[u8]) -> (r: Vec<
    Vec<Vec<u8>>,
>)
    ensures
        table_view(r@) == imploded(table_view(rows@), columns@, sep@),
{
    let mut out: Vec<Vec<Vec<u8>>> = Vec::new();
    let ghost table = table_view(rows@);
    let mut i: usize = 0;
    proof {
        assert(table.take(0) =~= Seq::<Row>::empty());
        assert(table_view(out@) =~= Seq::<Row>::empty());
    }
    while i < rows.len()
        invariant
            i <= rows@.len(),
            table == table_view(rows@),
            table_view(out@) == imploded(table.take(i as int), columns@, sep@),
        decreases rows@.len() - i,
    {
        let row = &rows[i];
        let ghost earlier = table_view(out@);
        proof {
            assert(table.take(i + 1).drop_last() =~= table.take(i as int));
            assert(table.take(i + 1).last() == row_view(row@));
        }
        let joins = out.len() > 0 && belong_together(&out[out.len() - 1], row, columns);
        if joins {
            match out.pop() {
                Some(last) => {
                    let ghost shorter = table_view(out@);
                    let mut last = last;
                    merge_into(&mut last, row, columns, sep);
                    let ghost joined = row_view(last@);
                    out.push(last);
                    proof {
                        assert(shorter =~= earlier.drop_last());
                        assert(table_view(out@) =~= shorter.push(joined));
                    }
                },
                None => {},
            }
        } else {
            out.push(copy_row(row));
            proof {
                assert(table_view(out@) =~= earlier.push(row_view(row@)));
            }
        }
        i += 1;
    }
    proof {
        assert(table.take(i as int) =~= table);
    }
    out
}

/// The pieces of a text between its commas.
pub open spec fn pieces(text: Seq<u8>, from: int) -> Seq<Seq<u8>>
    decreases text.len() - from,
{
    if from < 0 || from > text.len() {
        Seq::empty()
    } else {
        match find_byte(text, from, COMMA) {
            Some(at) => if from <= at < text.len() {
                seq![text.subrange(from, at)] + pieces(text, at + 1)
            } else {
                Seq::empty()
            },
            None => seq![text.subrange(from, text.len() as int)],
        }
    }
}

/// Splits a text at its commas.
pub fn split_list(text: &[u8]) -> (r: Vec<Vec<u8>>)
    ensures
        row_view(r@) == pieces(text@, 0),
{
    let mut out: Vec<Vec<u8>> = Vec::new();
    let mut from: usize = 0;
    proof {
        assert(row_view(out@) + pieces(text@, 0) =~= pieces(text@, 0));
    }
    loop
        invariant
            from <= text.len(),
            pieces(text@, 0) == row_view(out@) + pieces(text@, from as int),
        decreases text.len() - from,
    {
        let ghost before = row_view(out@);
        match find(text, from, COMMA) {
            Some(at) => {
                out.push(copy_bytes(slice_of(text, from, at)));
                proof {
                    assert(row_view(out@) =~= before.push(text@.subrange(from as int, at as int)));
                    assert(before + (seq![text@.subrange(from as int, at as int)] + pieces(
                        text@,
                        at + 1,
                    )) =~= row_view(out@) + pieces(text@, at + 1));
                }
                from = at + 1;
            },
            None => {
                out.push(copy_bytes(slice_of(text, from, text.len())));
                proof {
                    assert(row_view(out@) =~= before + seq![
                        text@.subrange(from as int, text@.len() as int),
                    ]);
                }
                return out;
            },
        }
    }
}

/// The options of the command.
#[derive(Debug, Clone, PartialEq, Eq)]
pub struct ImplodeArgs {
    /// The chosen columns: names or indices, with commas between them.
    pub columns: Vec<u8>,
    /// Where the table is read from, if that was named.
    pub input: Option<Vec<u8>>,
    /// What the values of a chosen column are joined with.
    pub sep: Vec<u8>,
    /// The new names of the chosen columns, with commas between them.
    pub rename: Option<Vec<u8>>,
    /// Whether a chosen column is renamed by adding an `s` to its name.
    pub plural: bool,
    /// Whether the first row is a row like the others.
    pub no_headers: bool,
}

/// Why a table could not be imploded.
#[derive(Debug, Clone, PartialEq, Eq)]
pub enum ImplodeError {
    /// No columns were named.
    MissingColumns,
    /// An option that takes a value stands last.
    MissingValue(Vec<u8>),
    /// An argument that starts with a dash is no option.
    UnknownOption(Vec<u8>),
    /// More than the columns and the input were named.
    TooManyArguments,
    /// A column was named that the table does not have.
    UnknownColumn(Vec<u8>),
    /// There are not as many new names as chosen columns.
    RenameMismatch { expected: usize, got: usize },
}

/// What an [`ImplodeArgs`] holds, with the positional arguments as far as
/// they were read.
pub struct Options {
    pub columns: Option<Seq<u8>>,
    pub input: Option<Seq<u8>>,
    pub sep: Seq<u8>,
    pub rename: Option<Seq<u8>>,
    pub plural: bool,
    pub no_headers: bool,
}

/// What is wrong with a list of arguments.
pub enum Misuse {
    MissingColumns,
    MissingValue(Seq<u8>),
    UnknownOption(Seq<u8>),
    TooManyArguments,
}

/// The options before any argument is read: values are joined with a bar.
pub open spec fn default_options() -> Options {
    Options {
        columns: None,
        input: None,
        sep: "|".spec_bytes(),
        rename: None,
        plural: false,
        no_headers: false,
    }
}

/// The byte that starts an option.
pub const DASH: u8 = 45;

/// The options after the arguments from `at` on are read. `--sep` and
/// `--rename` (or `-r`) take the argument after them as their value,
/// `--plural` and `--no-headers` take none; the first other argument names
/// the columns and the second the input.
pub open spec fn options_from(args: Seq<Seq<u8>>, at: int, so_far: Options) -> Result<
    Options,
    Misuse,
>
    decreases args.len() - at,
{
    if at < 0 || at >= args.len() {
        if so_far.columns is None {
            Err(Misuse::MissingColumns)
        } else {
            Ok(so_far)
        }
    } else {
        let arg = args[at];
        if arg == "--sep".spec_bytes() {
            if at + 1 >= args.len() {
                Err(Misuse::MissingValue(arg))
            } else {
                options_from(args, at + 2, Options { sep: args[at + 1], ..so_far })
            }
        } else if arg == "--rename".spec_bytes() || arg == "-r".spec_bytes() {
            if at + 1 >= args.len() {
                Err(Misuse::MissingValue(arg))
            } else {
                options_from(args, at + 2, Options { rename: Some(args[at + 1]), ..so_far })
            }
        } else if arg == "--plural".spec_bytes() {
            options_from(args, at + 1, Options { plural: true, ..so_far })
        } else if arg == "--no-headers".spec_bytes() {
            options_from(args, at + 1, Options { no_headers: true, ..so_far })
        } else if arg.len() > 0 && arg[0] == DASH {
            Err(Misuse::UnknownOption(arg))
        } else if so_far.columns is None {
            options_from(args, at + 1, Options { columns: Some(arg), ..so_far })
        } else if so_far.input is None {
            options_from(args, at + 1, Options { input: Some(arg), ..so_far })
        } else {
            Err(Misuse::TooManyArguments)
        }
    }
}

/// What a sequence of arguments holds.
pub open spec fn args_view(args: Seq<&str>) -> Seq<Seq<u8>> {
    Seq::new(args.len(), |i: int| args[i].spec_bytes())
}

/// What optional bytes hold.
pub open spec fn optional_bytes(bytes: Option<Vec<u8>>) -> Option<Seq<u8>> {
    match bytes {
        Some(b) => Some(b@),
        None => None,
    }
}

impl ImplodeArgs {
    /// Whether the arguments hold these options.
    pub open spec fn holds(&self, options: Options) -> bool {
        &&& options.columns == Some(self.columns@)
        &&& options.input == optional_bytes(self.input)
        &&& options.sep == self.sep@
        &&& options.rename == optional_bytes(self.rename)
        &&& options.plural == self.plural
        &&& options.no_headers == self.no_headers
    }

    /// Reads the arguments of the command.
    pub fn parse(args: &[&str]) -> (r: Result<ImplodeArgs, ImplodeError>)
        ensures
            match options_from(args_view(args@), 0, default_options()) {
                Ok(options) => r matches Ok(parsed) && parsed.holds(options),
                Err(Misuse::MissingColumns) => r matches Err(ImplodeError::MissingColumns),
                Err(Misuse::MissingValue(flag)) => r matches Err(ImplodeError::MissingValue(f))
                    && f@ == flag,
                Err(Misuse::UnknownOption(arg)) => r matches Err(ImplodeError::UnknownOption(a))
                    && a@ == arg,
                Err(Misuse::TooManyArguments) => r matches Err(ImplodeError::TooManyArguments),
            },
    {
        let mut columns: Option<Vec<u8>> = None;
        let mut input: Option<Vec<u8>> = None;
        let mut sep: Vec<u8> = copy_bytes("|".as_bytes());
        let mut rename: Option<Vec<u8>> = None;
        let mut plural = false;
        let mut no_headers = false;
        let ghost all = args_view(args@);
        let mut at: usize = 0;
        while at < args.len()
            invariant
                at <= args@.len(),
                all == args_view(args@),
                options_from(all, 0, default_options()) == options_from(
                    all,
                    at as int,
                    Options {
                        columns: optional_bytes(columns),
                        input: optional_bytes(input),
                        sep: sep@,
                        rename: optional_bytes(rename),
                        plural,
                        no_headers,
                    },
                ),
            decreases args@.len() - at,
        {
            let arg = args[at].as_bytes();
            assert(all[at as int] == arg@);
            if bytes_eq(arg, "--sep".as_bytes()) {
                if at + 1 >= args.len() {
                    return Err(ImplodeError::MissingValue(copy_bytes(arg)));
                }
                assert(all[at + 1] == args@[at + 1].spec_bytes());
                sep = copy_bytes(args[at + 1].as_bytes());
                at += 2;
            } else if bytes_eq(arg, "--rename".as_bytes()) || bytes_eq(arg, "-r".as_bytes()) {
                if at + 1 >= args.len() {
                    return Err(ImplodeError::MissingValue(copy_bytes(arg)));
                }
                assert(all[at + 1] == args@[at + 1].spec_bytes());
                rename = Some(copy_bytes(args[at + 1].as_bytes()));
                at += 2;
            } else if bytes_eq(arg, "--plural".as_bytes()) {
                plural = true;
                at += 1;
            } else if bytes_eq(arg, "--no-headers".as_bytes()) {
                no_headers = true;
                at += 1;
            } else if arg.len() > 0 && arg[0] == DASH {
                return Err(ImplodeError::UnknownOption(copy_bytes(arg)));
            } else if columns.is_none() {
                columns = Some(copy_bytes(arg));
                at += 1;
            } else if input.is_none() {
                input = Some(copy_bytes(arg));
                at += 1;
            } else {
                return Err(ImplodeError::TooManyArguments);
            }
        }
        match columns {
            Some(columns) => Ok(ImplodeArgs { columns, input, sep, rename, plural, no_headers }),
            None => Err(ImplodeError::MissingColumns),
        }
    }
}

/// The index of the first of the `names` from `from` on that is `name`.
pub open spec fn named_at(names: Row, name: Seq<u8>, from: int) -> Option<int>
    decreases names.len() - from,
{
    if from < 0 || from >= names.len() {
        None
    } else if names[from] == name {
        Some(from)
    } else {
        named_at(names, name, from + 1)
    }
}

/// The column that `name` chooses in a table of the given width: the first
/// column that bears the name, if the table has a header and one does; else
/// the column at the index that the name is the numeral of, if it is one
/// and the table is that wide.
pub open spec fn chosen_column(header: Option<Row>, width: nat, name: Seq<u8>) -> Option<usize> {
    let by_name = match header {
        Some(names) => named_at(names, name, 0),
        None => None,
    };
    match by_name {
        Some(index) => if index <= usize::MAX {
            Some(index as usize)
        } else {
            None
        },
        None => match numeral_value(name) {
            Some(index) => if 0 <= index < width && index <= usize::MAX {
                Some(index as usize)
            } else {
                None
            },
            None => None,
        },
    }
}

/// Finds the first of the `names` that is `name`.
fn find_name(names: &Vec<Vec<u8>>, name: &[u8]) -> (r: Option<usize>)
    ensures
        match r {
            Some(index) => named_at(row_view(names@), name@, 0) == Some(index as int) && index
                < names@.len(),
            None => named_at(row_view(names@), name@, 0) is None,
        },
{
    let mut i: usize = 0;
    while i < names.len()
        invariant
            i <= names@.len(),
            named_at(row_view(names@), name@, 0) == named_at(row_view(names@), name@, i as int),
        decreases names@.len() - i,
    {
        assert(row_view(names@)[i as int] == names@[i as int]@);
        if bytes_eq(names[i].as_slice(), name) {
            return Some(i);
        }
        i += 1;
    }
    None
}

/// What an optional row holds.
pub open spec fn optional_row(row: Option<&Vec<Vec<u8>>>) -> Option<Row> {
    match row {
        Some(r) => Some(row_view(r@)),
        None => None,
    }
}

/// Finds the column that `name` chooses.
pub fn choose_column(header: Option<&Vec<Vec<u8>>>, width: usize, name: &[u8]) -> (r: Option<usize>)
    ensures
        r == chosen_column(optional_row(header), width as nat, name@),
{
    let by_name = match header {
        Some(names) => find_name(names, name),
        None => None,
    };
    match by_name {
        Some(index) => Some(index),
        None => match parse_integer(name) {
            Some(index) => {
                if 0 <= index && (index as u64) < (width as u64) {
                    Some(index as usize)
                } else {
                    None
                }
            },
            None => None,
        },
    }
}

/// The columns that the names choose, in turn, or the first name that
/// chooses none.
pub open spec fn chosen_columns(header: Option<Row>, width: nat, names: Row, from: int) -> Result<
    Seq<usize>,
    Seq<u8>,
>
    decreases names.len() - from,
{
    if from < 0 || from >= names.len() {
        Ok(Seq::empty())
    } else {
        match chosen_column(header, width, names[from]) {
            Some(column) => match chosen_columns(header, width, names, from + 1) {
                Ok(rest) => Ok(seq![column] + rest),
                Err(name) => Err(name),
            },
            None => Err(names[from]),
        }
    }
}

/// Finds the columns that the names choose.
pub fn choose_columns(header: Option<&Vec<Vec<u8>>>, width: usize, names: &Vec<Vec<u8>>) -> (r:
    Result<Vec<usize>, ImplodeError>)
    ensures
        match chosen_columns(optional_row(header), width as nat, row_view(names@), 0) {
            Ok(columns) => r matches Ok(found) && found@ == columns,
            Err(name) => r matches Err(ImplodeError::UnknownColumn(n)) && n@ == name,
        },
{
    let ghost head = optional_row(header);
    let ghost list = row_view(names@);
    let mut columns: Vec<usize> = Vec::new();
    let mut i: usize = 0;
    proof {
        match chosen_columns(head, width as nat, list, 0) {
            Ok(rest) => {
                assert(columns@ + rest =~= rest);
            },
            Err(_) => {},
        }
    }
    while i < names.len()
        invariant
            i <= names@.len(),
            head == optional_row(header),
            list == row_view(names@),
            match chosen_columns(head, width as nat, list, 0) {
                Ok(all) => chosen_columns(head, width as nat, list, i as int) matches Ok(rest)
                    && all == columns@ + rest,
                Err(name) => chosen_columns(head, width as nat, list, i as int) == Err::<
                    Seq<usize>,
                    Seq<u8>,
                >(name),
            },
        decreases names@.len() - i,
    {
        let ghost before = columns@;
        assert(list[i as int] == names@[i as int]@);
        match choose_column(header, width, names[i].as_slice()) {
            Some(column) => {
                columns.push(column);
                proof {
                    match chosen_columns(head, width as nat, list, i + 1) {
                        Ok(rest) => {
                            assert(before + (seq![column] + rest) =~= columns@ + rest);
                        },
                        Err(_) => {},
                    }
                }
            },
            None => {
                return Err(ImplodeError::UnknownColumn(copy_bytes(names[i].as_slice())));
            },
        }
        i += 1;
    }
    proof {
        match chosen_columns(head, width as nat, list, 0) {
            Ok(all) => {
                assert(all =~= columns@);
            },
            Err(_) => {},
        }
    }
    Ok(columns)
}

/// The place of `column` among the chosen columns, from `from` on.
pub open spec fn place_of(columns: Seq<usize>, column: usize, from: int) -> Option<int>
    decreases columns.len() - from,
{
    if from < 0 || from >= columns.len() {
        None
    } else if columns[from] == column {
        Some(from)
    } else {
        place_of(columns, column, from + 1)
    }
}

/// How the chosen columns are renamed.
pub enum Renaming {
    /// Not at all.
    Keep,
    /// By adding an `s` to their names.
    Plural,
    /// With these names, one for each chosen column, in their order.
    Names(Row),
}

/// The header with the chosen columns renamed.
pub open spec fn renamed(header: Row, columns: Seq<usize>, renaming: Renaming) -> Row {
    Seq::new(
        header.len(),
        |i: int|
            match place_of(columns, i as usize, 0) {
                Some(place) => match renaming {
                    Renaming::Keep => header[i],
                    Renaming::Plural => header[i] + "s".spec_bytes(),
                    Renaming::Names(names) => if 0 <= place < names.len() {
                        names[place]
                    } else {
                        header[i]
                    },
                },
                None => header[i],
            },
    )
}

/// Finds the place of `column` among the chosen columns.
fn find_place(columns: &Vec<usize>, column: usize) -> (r: Option<usize>)
    ensures
        match r {
            Some(place) => place_of(columns@, column, 0) == Some(place as int) && place
                < columns@.len(),
            None => place_of(columns@, column, 0) is None,
        },
{
    let mut i: usize = 0;
    while i < columns.len()
        invariant
            i <= columns@.len(),
            place_of(columns@, column, 0) == place_of(columns@, column, i as int),
        decreases columns@.len() - i,
    {
        if columns[i] == column {
            return Some(i);
        }
        i += 1;
    }
    None
}

/// The renaming that the options ask for: new names where some are given,
/// else the plural where that is asked for.
pub open spec fn renaming_of(rename: Option<Seq<u8>>, plural: bool) -> Renaming {
    match rename {
        Some(names) => Renaming::Names(pieces(names, 0)),
        None => if plural {
            Renaming::Plural
        } else {
            Renaming::Keep
        },
    }
}

/// Renames the chosen columns of a header.
fn rename_header(
    header: &Vec<Vec<u8>>,
    columns: &Vec<usize>,
    names: &Option<Vec<Vec<u8>>>,
    plural: bool,
) -> (r: Vec<Vec<u8>>)
    ensures
        row_view(r@) == renamed(
            row_view(header@),
            columns@,
            match names {
                Some(list) => Renaming::Names(row_view(list@)),
                None => if plural {
                    Renaming::Plural
                } else {
                    Renaming::Keep
                },
            },
        ),
{
    let ghost renaming = match names {
        Some(list) => Renaming::Names(row_view(list@)),
        None => if plural {
            Renaming::Plural
        } else {
            Renaming::Keep
        },
    };
    let ghost target = renamed(row_view(header@), columns@, renaming);
    let mut out: Vec<Vec<u8>> = Vec::new();
    let mut i: usize = 0;
    while i < header.len()
        invariant
            i <= header@.len(),
            out@.len() == i,
            target == renamed(row_view(header@), columns@, renaming),
            renaming == match names {
                Some(list) => Renaming::Names(row_view(list@)),
                None => if plural {
                    Renaming::Plural
                } else {
                    Renaming::Keep
                },
            },
            forall|j: int| 0 <= j < i ==> (#[trigger] out@[j])@ == target[j],
        decreases header@.len() - i,
    {
        let mut name = copy_bytes(header[i].as_slice());
        match find_place(columns, i) {
            Some(place) => match names {
                Some(list) => {
                    if place < list.len() {
                        assert(row_view(list@)[place as int] == list@[place as int]@);
                        name = copy_bytes(list[place].as_slice());
                    }
                },
                None => {
                    if plural {
                        write_bytes("s".as_bytes(), &mut name);
                    }
                },
            },
            None => {},
        }
        out.push(name);
        i += 1;
    }
    assert(row_view(out@) =~= target);
    out
}

/// The width of a table: the length of its first row.
pub open spec fn table_width(rows: Seq<Row>) -> nat {
    if rows.len() == 0 {
        0
    } else {
        rows[0].len()
    }
}

/// What imploding a table under the given options comes to. The named
/// columns are looked up, in the header unless there is none. There must be
/// as many new names as chosen columns. The header, renamed, stays the
/// first row, and the rows after it are imploded.
pub open spec fn implosion(options: Options, rows: Seq<Row>) -> Result<Seq<Row>, TableMisuse> {
    let headed = !options.no_headers && rows.len() > 0;
    let header = if headed {
        Some(rows[0])
    } else {
        None
    };
    match chosen_columns(header, table_width(rows), pieces(options.columns.unwrap(), 0), 0) {
        Err(name) => Err(TableMisuse::UnknownColumn(name)),
        Ok(columns) => {
            let renaming = renaming_of(options.rename, options.plural);
            if renaming matches Renaming::Names(names) && names.len() != columns.len() {
                Err(
                    TableMisuse::RenameMismatch {
                        expected: columns.len(),
                        got: renaming->Names_0.len(),
                    },
                )
            } else if headed {
                Ok(
                    seq![renamed(rows[0], columns, renaming)] + imploded(
                        rows.skip(1),
                        columns,
                        options.sep,
                    ),
                )
            } else {
                Ok(imploded(rows, columns, options.sep))
            }
        },
    }
}

/// What is wrong with the options for a table.
pub enum TableMisuse {
    UnknownColumn(Seq<u8>),
    RenameMismatch { expected: nat, got: nat },
}

/// Implodes a table under the given options.
pub fn implode(args: &ImplodeArgs, rows: &Vec<Vec<Vec<u8>>>) -> (r: Result<
    Vec<Vec<Vec<u8>>>,
    ImplodeError,
>)
    ensures
        match implosion(
            Options {
                columns: Some(args.columns@),
                input: optional_bytes(args.input),
                sep: args.sep@,
                rename: optional_bytes(args.rename),
                plural: args.plural,
                no_headers: args.no_headers,
            },
            table_view(rows@),
        ) {
            Ok(table) => r matches Ok(out) && table_view(out@) == table,
            Err(TableMisuse::UnknownColumn(name)) => r matches Err(ImplodeError::UnknownColumn(n))
                && n@ == name,
            Err(TableMisuse::RenameMismatch { expected, got }) => r matches Err(
                ImplodeError::RenameMismatch { expected: e, got: g },
            ) && e == expected && g == got,
        },
{
    let ghost table = table_view(rows@);
    let headed = !args.no_headers && rows.len() > 0;
    let width = if rows.len() == 0 {
        0
    } else {
        rows[0].len()
    };
    proof {
        if rows@.len() > 0 {
            assert(table[0] == row_view(rows@[0]@));
        }
    }
    let names = split_list(args.columns.as_slice());
    let header: Option<&Vec<Vec<u8>>> = if headed {
        Some(&rows[0])
    } else {
        None
    };
    let columns = match choose_columns(header, width, &names) {
        Ok(columns) => columns,
        Err(e) => {
            return Err(e);
        },
    };
    let new_names: Option<Vec<Vec<u8>>> = match &args.rename {
        Some(list) => Some(split_list(list.as_slice())),
        None => None,
    };
    match &new_names {
        Some(list) => {
            if list.len() != columns.len() {
                return Err(
                    ImplodeError::RenameMismatch { expected: columns.len(), got: list.len() },
                );
            }
        },
        None => {},
    }
    if headed {
        let head = rename_header(&rows[0], &columns, &new_names, args.plural);
        let mut body: Vec<Vec<Vec<u8>>> = Vec::new();
        let mut i: usize = 1;
        while i < rows.len()
            invariant
                1 <= i <= rows@.len(),
                table == table_view(rows@),
                table_view(body@) == table.subrange(1, i as int),
            decreases rows@.len() - i,
        {
            let ghost before = table_view(body@);
            body.push(copy_row(&rows[i]));
            proof {
                assert(table[i as int] == row_view(rows@[i as int]@));
                assert(table_view(body@) =~= before.push(table[i as int]));
                assert(table.subrange(1, i + 1) =~= table.subrange(1, i as int).push(
                    table[i as int],
                ));
            }
            i += 1;
        }
        proof {
            assert(table.subrange(1, i as int) =~= table.skip(1));
        }
        let mut out = implode_rows(&body, &columns, args.sep.as_slice());
        let ghost first = row_view(head@);
        let ghost others = table_view(out@);
        out.insert(0, head);
        proof {
            assert forall|k: int| 0 <= k < table_view(out@).len() implies table_view(out@)[k] == (
            seq![first] + others)[k] by {
                if k > 0 {
                    assert(table_view(out@)[k] == row_view(out@[k]@));
                    assert(others[k - 1] == row_view(out@[k]@));
                }
            }
            assert(table_view(out@) =~= seq![first] + others);
        }
        Ok(out)
    } else {
        Ok(implode_rows(rows, &columns, args.sep.as_slice()))
    }
}

} // verus!
