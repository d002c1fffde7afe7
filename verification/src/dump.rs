//! The dump files of a build: where they lie, and the names that carry the
//! language, the date and the table of each.

use crate::error::{Error, Table};
use crate::metadata::{
    is_date_code, is_digit, is_digit_char, is_language_code, is_letter, is_letter_char, Metadata,
};
use vstd::prelude::*;
use vstd::string::{StrSliceExecFns, StringExecFns};

verus! {

/// The paths of the four dump files of a build.
#[derive(Debug)]
pub struct TableDumpFiles {
    pub page: String,
    pub redirect: String,
    pub pagelinks: String,
    pub linktarget: String,
}

/// The paths of the dump files of a build without a link target table.
#[derive(Debug)]
pub struct Dump {
    pub pages: String,
    pub redirects: String,
    pub pagelinks: String,
}

/// What the name of a dump file says of it, and the hash that its content
/// must have.
#[derive(Debug)]
pub struct TableDumpFileMetadata {
    /// The table that the file dumps.
    pub table: String,
    pub language_code: String,
    pub date_code: String,
    pub hash: String,
}

/// The name of the dump file of a table: `{language}wiki-{date}-{table}.sql.gz`.
pub open spec fn full_name_of(language: Seq<char>, date: Seq<char>, table: Seq<char>) -> Seq<char> {
    language + seq!['w', 'i', 'k', 'i', '-'] + date + seq!['-'] + table + seq![
        '.',
        's',
        'q',
        'l',
        '.',
        'g',
        'z',
    ]
}

/// `name` is the name of a dump file of `language`, `date` and `table`: the
/// language code, `wiki-`, the date code, `-`, the table, and `.sql.gz`. No
/// line break is part of the table.
pub open spec fn is_dump_name(
    name: Seq<char>,
    language: Seq<char>,
    date: Seq<char>,
    table: Seq<char>,
) -> bool {
    let l = language.len() as int;
    let d = date.len() as int;
    let t = table.len() as int;
    let e = l + 6 + d + t;
    &&& is_language_code(language)
    &&& is_date_code(date)
    &&& t > 0
    &&& forall|i: int| 0 <= i < t ==> #[trigger] table[i] != '\n'
    &&& name.len() == e + 7
    &&& name.subrange(0, l) == language
    &&& name[l] == 'w' && name[l + 1] == 'i' && name[l + 2] == 'k' && name[l + 3] == 'i' && name[l
        + 4] == '-'
    &&& name.subrange(l + 5, l + 5 + d) == date
    &&& name[l + 5 + d] == '-'
    &&& name.subrange(l + 6 + d, e) == table
    &&& name[e] == '.' && name[e + 1] == 's' && name[e + 2] == 'q' && name[e + 3] == 'l'
    &&& name[e + 4] == '.' && name[e + 5] == 'g' && name[e + 6] == 'z'
}

/// The names that `to_full_name` writes are names of dump files.
pub proof fn lemma_full_name_is_dump_name(language: Seq<char>, date: Seq<char>, table: Seq<char>)
    requires
        is_language_code(language),
        is_date_code(date),
        table.len() > 0,
        forall|i: int| 0 <= i < table.len() ==> #[trigger] table[i] != '\n',
    ensures
        is_dump_name(full_name_of(language, date, table), language, date, table),
{
    let name = full_name_of(language, date, table);
    let l = language.len() as int;
    let d = date.len() as int;
    let t = table.len() as int;
    assert(name.subrange(0, l) =~= language);
    assert(name.subrange(l + 5, l + 5 + d) =~= date);
    assert(name.subrange(l + 6 + d, l + 6 + d + t) =~= table);
}

impl TableDumpFileMetadata {
    /// What the name of a dump file says of the file. A text that is not the
    /// name of a dump file is rejected.
    pub fn from_full_name_and_hash(full_name: &str, hash: String) -> (parsed: Result<
        TableDumpFileMetadata,
        Error,
    >)
        ensures
            parsed matches Ok(m) ==> is_dump_name(
                full_name@,
                m.language_code@,
                m.date_code@,
                m.table@,
            ) && m.hash == hash,
            parsed matches Err(e) ==> e == Error::InvalidArtifactPath && forall|
                language: Seq<char>,
                date: Seq<char>,
                table: Seq<char>,
            | !#[trigger] is_dump_name(full_name@, language, date, table),
    {
        let len: usize = full_name.unicode_len();
        let ghost text = full_name@;
        let mut dash: usize = 0;
        while dash < len && is_letter_char(full_name.get_char(dash))
            invariant
                dash <= len,
                len == text.len(),
                text == full_name@,
                forall|i: int| 0 <= i < dash ==> is_letter(#[trigger] text[i]),
            decreases len - dash,
        {
            dash = dash + 1;
        }
        // The letters at the start end with `wiki`, and a dash follows them.
        let wiki = dash >= 5 && dash < len && full_name.get_char(dash - 4) == 'w'
            && full_name.get_char(dash - 3) == 'i' && full_name.get_char(dash - 2) == 'k'
            && full_name.get_char(dash - 1) == 'i' && full_name.get_char(dash) == '-';
        if !wiki {
            proof {
                assert forall|language: Seq<char>, date: Seq<char>, table: Seq<char>|
                    !#[trigger] is_dump_name(text, language, date, table) by {
                    if is_dump_name(text, language, date, table) {
                        lemma_letters_end(text, language, date, table, dash as int);
                    }
                }
            }
            return Err(Error::InvalidArtifactPath);
        }
        let mut end: usize = dash + 1;
        while end < len && is_digit(full_name.get_char(end))
            invariant
                dash < end <= len,
                len == text.len(),
                text == full_name@,
                forall|i: int| dash < i < end ==> is_digit_char(#[trigger] text[i]),
            decreases len - end,
        {
            end = end + 1;
        }
        if end == dash + 1 || end >= len || full_name.get_char(end) != '-' || len - end < 9 {
            proof {
                assert forall|language: Seq<char>, date: Seq<char>, table: Seq<char>|
                    !#[trigger] is_dump_name(text, language, date, table) by {
                    if is_dump_name(text, language, date, table) {
                        lemma_letters_end(text, language, date, table, dash as int);
                        lemma_digits_end(text, language, date, table, dash as int, end as int);
                    }
                }
            }
            return Err(Error::InvalidArtifactPath);
        }
        let tail: usize = len - 7;
        let mut i: usize = end + 1;
        while i < tail
            invariant
                end < i <= tail,
                tail == len - 7,
                len == text.len(),
                text == full_name@,
                dash < end,
                forall|j: int| 0 <= j < dash ==> is_letter(#[trigger] text[j]),
                !is_letter(text[dash as int]),
                forall|j: int| dash < j < end ==> is_digit_char(#[trigger] text[j]),
                !is_digit_char(text[end as int]),
                forall|j: int| end < j < i ==> #[trigger] text[j] != '\n',
            decreases tail - i,
        {
            if full_name.get_char(i) == '\n' {
                proof {
                    assert forall|language: Seq<char>, date: Seq<char>, table: Seq<char>|
                        !#[trigger] is_dump_name(text, language, date, table) by {
                        if is_dump_name(text, language, date, table) {
                            lemma_letters_end(text, language, date, table, dash as int);
                            lemma_digits_end(text, language, date, table, dash as int, end as int);
                            assert(table[i - end - 1] == text[i as int]);
                        }
                    }
                }
                return Err(Error::InvalidArtifactPath);
            }
            i = i + 1;
        }
        let ending = full_name.get_char(tail) == '.' && full_name.get_char(tail + 1) == 's'
            && full_name.get_char(tail + 2) == 'q' && full_name.get_char(tail + 3) == 'l'
            && full_name.get_char(tail + 4) == '.' && full_name.get_char(tail + 5) == 'g'
            && full_name.get_char(tail + 6) == 'z';
        if !ending {
            proof {
                assert forall|language: Seq<char>, date: Seq<char>, table: Seq<char>|
                    !#[trigger] is_dump_name(text, language, date, table) by {
                    if is_dump_name(text, language, date, table) {
                        lemma_letters_end(text, language, date, table, dash as int);
                        lemma_digits_end(text, language, date, table, dash as int, end as int);
                    }
                }
            }
            return Err(Error::InvalidArtifactPath);
        }
        let language = full_name.substring_char(0, dash - 4);
        let date = full_name.substring_char(dash + 1, end);
        let table = full_name.substring_char(end + 1, tail);
        let metadata = TableDumpFileMetadata {
            table: String::from_str(table),
            language_code: String::from_str(language),
            date_code: String::from_str(date),
            hash,
        };
        proof {
            assert forall|j: int| 0 <= j < metadata.table@.len() implies #[trigger] metadata.table@[j]
                != '\n' by {
                assert(metadata.table@[j] == text[end + 1 + j]);
            }
            assert forall|j: int| 0 <= j < metadata.date_code@.len() implies is_digit_char(
                #[trigger] metadata.date_code@[j],
            ) by {
                assert(metadata.date_code@[j] == text[dash + 1 + j]);
            }
            assert forall|j: int| 0 <= j < metadata.language_code@.len() implies is_letter(
                #[trigger] metadata.language_code@[j],
            ) by {
                assert(metadata.language_code@[j] == text[j]);
            }
        }
        Ok(metadata)
    }

    /// The language and the date of the dump.
    pub fn to_normal(&self) -> (metadata: Metadata)
        ensures
            metadata.language_code@ == self.language_code@,
            metadata.date_code@ == self.date_code@,
    {
        Metadata { language_code: self.language_code.clone(), date_code: self.date_code.clone() }
    }

    /// The name of the file.
    pub fn to_full_name(&self) -> (name: String)
        ensures
            name@ == full_name_of(self.language_code@, self.date_code@, self.table@),
    {
        proof {
            reveal_strlit("wiki-");
            reveal_strlit("-");
            reveal_strlit(".sql.gz");
        }
        let mut name = self.language_code.clone();
        name.append("wiki-");
        name.append(self.date_code.as_str());
        name.append("-");
        name.append(self.table.as_str());
        name.append(".sql.gz");
        assert(name@ =~= full_name_of(self.language_code@, self.date_code@, self.table@));
        name
    }
}

/// In the name of a dump file the letters at the start end where the
/// language code and `wiki` end.
proof fn lemma_letters_end(
    name: Seq<char>,
    language: Seq<char>,
    date: Seq<char>,
    table: Seq<char>,
    dash: int,
)
    requires
        is_dump_name(name, language, date, table),
        0 <= dash <= name.len(),
        forall|i: int| 0 <= i < dash ==> is_letter(#[trigger] name[i]),
        dash == name.len() || !is_letter(name[dash]),
    ensures
        dash == language.len() + 4,
{
    let l = language.len() as int;
    assert(!is_letter(name[l + 4]));
    assert forall|i: int| 0 <= i < l + 4 implies is_letter(#[trigger] name[i]) by {
        if i < l {
            assert(name.subrange(0, l)[i] == name[i]);
            assert(is_letter(language[i]));
        }
    }
    if dash < l + 4 {
        assert(is_letter(name[dash]));
    }
    if dash > l + 4 {
        assert(is_letter(name[l + 4]));
    }
}

/// In the name of a dump file the digits behind `wiki-` end where the date
/// code ends.
proof fn lemma_digits_end(
    name: Seq<char>,
    language: Seq<char>,
    date: Seq<char>,
    table: Seq<char>,
    dash: int,
    end: int,
)
    requires
        is_dump_name(name, language, date, table),
        dash == language.len() + 4,
        dash < end <= name.len(),
        forall|i: int| dash < i < end ==> is_digit_char(#[trigger] name[i]),
        end == name.len() || !is_digit_char(name[end]),
    ensures
        end == dash + 1 + date.len(),
{
    let l = language.len() as int;
    let d = date.len() as int;
    assert(!is_digit_char(name[l + 5 + d]));
    assert forall|i: int| l + 5 <= i < l + 5 + d implies is_digit_char(#[trigger] name[i]) by {
        assert(name.subrange(l + 5, l + 5 + d)[i - l - 5] == name[i]);
        assert(is_digit_char(date[i - l - 5]));
    }
    if end < l + 5 + d {
        assert(is_digit_char(name[end]));
    }
    if end > l + 5 + d {
        assert(is_digit_char(name[l + 5 + d]));
    }
}

/// What is known of the four dump files of a build.
#[derive(Debug)]
pub struct TableDumpFileMetadatas {
    pub page: TableDumpFileMetadata,
    pub redirect: TableDumpFileMetadata,
    pub pagelinks: TableDumpFileMetadata,
    pub linktarget: TableDumpFileMetadata,
}

/// Two spaces stand at `at` in the text.
pub open spec fn gap_at(text: Seq<char>, at: int) -> bool {
    0 <= at && at + 1 < text.len() && text[at] == ' ' && text[at + 1] == ' '
}

/// Where the first two spaces in a row stand in the text, if there are any.
pub fn find_gap(text: &str) -> (place: Option<usize>)
    ensures
        place matches Some(at) ==> gap_at(text@, at as int) && forall|i: int|
            0 <= i < at ==> !gap_at(text@, i),
        place is None ==> forall|i: int| !gap_at(text@, i),
{
    let len: usize = text.unicode_len();
    if len < 2 {
        return None;
    }
    let mut i: usize = 0;
    while i + 1 < len
        invariant
            i + 1 <= len,
            len == text@.len(),
            forall|j: int| 0 <= j < i ==> !gap_at(text@, j),
        decreases len - i,
    {
        if text.get_char(i) == ' ' && text.get_char(i + 1) == ' ' {
            return Some(i);
        }
        i = i + 1;
    }
    None
}

/// The first two spaces in a row stand at `at` in the text.
pub open spec fn first_gap(text: Seq<char>, at: int) -> bool {
    gap_at(text, at) && forall|i: int| 0 <= i < at ==> !gap_at(text, i)
}

/// What a line of the list of checksums says: the hash, which is the text
/// before the first two spaces in a row, and the file whose name is the text
/// behind them. A line without two spaces in a row says nothing; a line whose
/// name is not the name of a dump file is of no interest.
pub fn read_sums_line(line: &str) -> (read: Option<Result<TableDumpFileMetadata, Error>>)
    ensures
        read is None <==> forall|i: int| !gap_at(line@, i),
        forall|at: int| #[trigger]
            first_gap(line@, at) ==> match read {
                Some(Ok(m)) => m.hash@ == line@.subrange(0, at) && is_dump_name(
                    line@.subrange(at + 2, line@.len() as int),
                    m.language_code@,
                    m.date_code@,
                    m.table@,
                ),
                Some(Err(e)) => e == Error::InvalidArtifactPath && forall|
                    language: Seq<char>,
                    date: Seq<char>,
                    table: Seq<char>,
                |
                    !#[trigger] is_dump_name(
                        line@.subrange(at + 2, line@.len() as int),
                        language,
                        date,
                        table,
                    ),
                None => false,
            },
{
    let at = match find_gap(line) {
        Some(at) => at,
        None => {
            return None;
        },
    };
    let len: usize = line.unicode_len();
    let hash = String::from_str(line.substring_char(0, at));
    let name = line.substring_char(at + 2, len);
    let read = TableDumpFileMetadata::from_full_name_and_hash(name, hash);
    proof {
        assert forall|other: int| #[trigger] first_gap(line@, other) implies other == at by {
            if other < at {
                assert(!gap_at(line@, other));
            }
            if at < other {
                assert(!gap_at(line@, at as int));
            }
        }
    }
    Some(read)
}

/// Whether the two texts are the same.
pub fn same_text(a: &str, b: &str) -> (same: bool)
    ensures
        same == (a@ == b@),
{
    let len: usize = a.unicode_len();
    if len != b.unicode_len() {
        return false;
    }
    let mut i: usize = 0;
    while i < len
        invariant
            i <= len,
            len == a@.len(),
            len == b@.len(),
            forall|j: int| 0 <= j < i ==> a@[j] == b@[j],
        decreases len - i,
    {
        if a.get_char(i) != b.get_char(i) {
            return false;
        }
        i = i + 1;
    }
    assert(a@ =~= b@);
    true
}

/// The first of the files that dumps the table, if one does.
pub fn find_table(files: &Vec<TableDumpFileMetadata>, table: &str) -> (place: Option<usize>)
    ensures
        place matches Some(at) ==> at < files@.len() && files@[at as int].table@ == table@
            && forall|i: int| 0 <= i < at ==> files@[i].table@ != table@,
        place is None ==> forall|i: int| 0 <= i < files@.len() ==> files@[i].table@ != table@,
{
    let mut i: usize = 0;
    while i < files.len()
        invariant
            i <= files@.len(),
            forall|j: int| 0 <= j < i ==> files@[j].table@ != table@,
        decreases files@.len() - i,
    {
        if same_text(files[i].table.as_str(), table) {
            return Some(i);
        }
        i = i + 1;
    }
    None
}

impl TableDumpFileMetadata {
    /// A copy.
    pub fn copy(&self) -> (copy: TableDumpFileMetadata)
        ensures
            copy.table@ == self.table@,
            copy.language_code@ == self.language_code@,
            copy.date_code@ == self.date_code@,
            copy.hash@ == self.hash@,
    {
        TableDumpFileMetadata {
            table: self.table.clone(),
            language_code: self.language_code.clone(),
            date_code: self.date_code.clone(),
            hash: self.hash.clone(),
        }
    }
}

/// The text is the name of the table.
pub open spec fn names_table(text: Seq<char>, table: Table) -> bool {
    text == table.name_text()
}

/// `file` is the first of the files that dumps the table.
pub open spec fn is_first_of(
    files: Seq<TableDumpFileMetadata>,
    table: Table,
    file: TableDumpFileMetadata,
) -> bool {
    exists|i: int|
        {
            &&& 0 <= i < files.len()
            &&& names_table(#[trigger] files[i].table@, table)
            &&& forall|j: int| 0 <= j < i ==> !names_table(files[j].table@, table)
            &&& file.table@ == files[i].table@
            &&& file.language_code@ == files[i].language_code@
            &&& file.date_code@ == files[i].date_code@
            &&& file.hash@ == files[i].hash@
        }
}

/// One of the files dumps the table.
pub open spec fn has_table(files: Seq<TableDumpFileMetadata>, table: Table) -> bool {
    exists|i: int| 0 <= i < files.len() && names_table(#[trigger] files[i].table@, table)
}

impl TableDumpFileMetadatas {
    /// The four dump files of a build among the files of a list of
    /// checksums: of each table the first file that dumps it. Where the list
    /// has no file for one of the tables, it is of no use.
    pub fn select(files: &Vec<TableDumpFileMetadata>) -> (selected: Result<
        TableDumpFileMetadatas,
        Error,
    >)
        ensures
            selected is Ok <==> has_table(files@, Table::Page) && has_table(
                files@,
                Table::Redirect,
            ) && has_table(files@, Table::PageLinks) && has_table(files@, Table::LinkTarget),
            selected matches Ok(s) ==> is_first_of(files@, Table::Page, s.page) && is_first_of(
                files@,
                Table::Redirect,
                s.redirect,
            ) && is_first_of(files@, Table::PageLinks, s.pagelinks) && is_first_of(
                files@,
                Table::LinkTarget,
                s.linktarget,
            ),
            selected matches Err(e) ==> e == Error::NotFound,
    {
        let page = find_table(files, Table::Page.name());
        let redirect = find_table(files, Table::Redirect.name());
        let pagelinks = find_table(files, Table::PageLinks.name());
        let linktarget = find_table(files, Table::LinkTarget.name());
        match (page, redirect, pagelinks, linktarget) {
            (Some(p), Some(r), Some(l), Some(t)) => {
                proof {
                    assert(names_table(files@[p as int].table@, Table::Page));
                    assert(names_table(files@[r as int].table@, Table::Redirect));
                    assert(names_table(files@[l as int].table@, Table::PageLinks));
                    assert(names_table(files@[t as int].table@, Table::LinkTarget));
                }
                let selected = TableDumpFileMetadatas {
                    page: files[p].copy(),
                    redirect: files[r].copy(),
                    pagelinks: files[l].copy(),
                    linktarget: files[t].copy(),
                };
                proof {
                    assert(is_first_of(files@, Table::Page, selected.page)) by {
                        assert(names_table(files@[p as int].table@, Table::Page));
                    }
                    assert(is_first_of(files@, Table::Redirect, selected.redirect)) by {
                        assert(names_table(files@[r as int].table@, Table::Redirect));
                    }
                    assert(is_first_of(files@, Table::PageLinks, selected.pagelinks)) by {
                        assert(names_table(files@[l as int].table@, Table::PageLinks));
                    }
                    assert(is_first_of(files@, Table::LinkTarget, selected.linktarget)) by {
                        assert(names_table(files@[t as int].table@, Table::LinkTarget));
                    }
                }
                Ok(selected)
            },
            _ => {
                proof {
                    let missing = if page.is_none() {
                        Table::Page
                    } else if redirect.is_none() {
                        Table::Redirect
                    } else if pagelinks.is_none() {
                        Table::PageLinks
                    } else {
                        Table::LinkTarget
                    };
                    assert(!has_table(files@, missing));
                }
                Err(Error::NotFound)
            },
        }
    }

    /// The language and the date of the dumps: those of the page dump, with
    /// which the others agree.
    pub fn to_normal(&self) -> (metadata: Metadata)
        ensures
            metadata.language_code@ == self.page.language_code@,
            metadata.date_code@ == self.page.date_code@,
    {
        self.page.to_normal()
    }
}

/// A dump file as the list of checksums names it.
#[derive(Debug)]
pub struct ExternalFile {
    pub full_name: String,
    pub language_code: String,
    pub dump_date: String,
    pub hash: String,
}

/// The dump files of a build as the list of checksums names them.
#[derive(Debug)]
pub struct ExternalDumpFiles {
    pub pages: ExternalFile,
    pub redirects: ExternalFile,
    pub pagelinks: ExternalFile,
}

impl ExternalDumpFiles {
    /// The language of the dumps.
    pub fn get_language_code(&self) -> (code: String)
        ensures
            code@ == self.pages.language_code@,
    {
        self.pages.language_code.clone()
    }

    /// The date of the dumps.
    pub fn get_dump_date(&self) -> (date: String)
        ensures
            date@ == self.pages.dump_date@,
    {
        self.pages.dump_date.clone()
    }
}

} // verus!
