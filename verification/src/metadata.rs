//! The language and the dump date of a database, and the name that carries
//! both: `wp-{language}-{date}`.

use crate::error::Error;
use vstd::prelude::*;
use vstd::string::{StrSliceExecFns, StringExecFns};

verus! {

/// The language of a Wikipedia edition and the date of one of its dumps.
#[derive(Debug, Clone, PartialEq, Eq, Hash)]
pub struct Metadata {
    pub language_code: String,
    pub date_code: String,
}

/// How a database is opened.
#[derive(Debug, Clone, Copy, PartialEq, Eq, Structural)]
pub enum Mode {
    /// Read-only, to answer queries.
    Serve,
    /// Read-write, while it is built.
    Build,
}

/// Whether the character is a letter of the basic Latin alphabet.
pub fn is_letter_char(c: char) -> (letter: bool)
    ensures
        letter == is_letter(c),
{
    ('a' <= c && c <= 'z') || ('A' <= c && c <= 'Z')
}

/// Whether the character is a decimal digit.
pub fn is_digit(c: char) -> (digit: bool)
    ensures
        digit == is_digit_char(c),
{
    '0' <= c && c <= '9'
}

/// The name of the database of `language` and `date`.
pub open spec fn name_of(language: Seq<char>, date: Seq<char>) -> Seq<char> {
    seq!['w', 'p', '-'] + language + seq!['-'] + date
}

/// The name of a database that is still being built.
pub open spec fn tmp_name_of(language: Seq<char>, date: Seq<char>) -> Seq<char> {
    name_of(language, date) + seq!['-', 't', 'm', 'p']
}

/// The character is a letter of the basic Latin alphabet.
pub open spec fn is_letter(c: char) -> bool {
    ('a' <= c && c <= 'z') || ('A' <= c && c <= 'Z')
}

/// The character is a decimal digit.
pub open spec fn is_digit_char(c: char) -> bool {
    '0' <= c && c <= '9'
}

/// A language code: one or more letters.
pub open spec fn is_language_code(text: Seq<char>) -> bool {
    text.len() > 0 && forall|i: int| 0 <= i < text.len() ==> is_letter(#[trigger] text[i])
}

/// A date code: one or more digits.
pub open spec fn is_date_code(text: Seq<char>) -> bool {
    text.len() > 0 && forall|i: int| 0 <= i < text.len() ==> is_digit_char(#[trigger] text[i])
}

/// `a` comes before `b` in the order of the dictionary.
pub open spec fn comes_before(a: Seq<char>, b: Seq<char>) -> bool
    decreases a.len(),
{
    if b.len() == 0 {
        false
    } else if a.len() == 0 {
        true
    } else if a[0] != b[0] {
        a[0] < b[0]
    } else {
        comes_before(a.drop_first(), b.drop_first())
    }
}

/// A name is the name of one language and one date only.
pub proof fn lemma_name_unique(
    language: Seq<char>,
    date: Seq<char>,
    other_language: Seq<char>,
    other_date: Seq<char>,
)
    requires
        is_language_code(language),
        is_language_code(other_language),
        name_of(language, date) == name_of(other_language, other_date),
    ensures
        language == other_language,
        date == other_date,
{
    let a = name_of(language, date);
    let b = name_of(other_language, other_date);
    let n = language.len() as int;
    let m = other_language.len() as int;
    assert(a[3 + n] == '-');
    assert(b[3 + m] == '-');
    if n < m {
        assert(b[3 + n] == other_language[n]);
    }
    if m < n {
        assert(a[3 + m] == language[m]);
    }
    assert forall|i: int| 0 <= i < language.len() implies language[i] == other_language[i] by {
        assert(a[3 + i] == language[i]);
        assert(b[3 + i] == other_language[i]);
    }
    assert(language =~= other_language);
    assert(a.len() == 4 + language.len() + date.len());
    assert(b.len() == 4 + other_language.len() + other_date.len());
    assert forall|i: int| 0 <= i < date.len() implies date[i] == other_date[i] by {
        assert(a[4 + language.len() + i] == date[i]);
        assert(b[4 + language.len() + i] == other_date[i]);
    }
    assert(date =~= other_date);
}

/// Whether `a` comes before `b` in the order of the dictionary.
pub fn text_comes_before(a: &str, b: &str) -> (before: bool)
    ensures
        before == comes_before(a@, b@),
{
    let a_len: usize = a.unicode_len();
    let b_len: usize = b.unicode_len();
    let mut i: usize = 0;
    assert(a@.skip(0) =~= a@ && b@.skip(0) =~= b@);
    while i < a_len && i < b_len
        invariant
            i <= a_len,
            i <= b_len,
            a_len == a@.len(),
            b_len == b@.len(),
            comes_before(a@, b@) == comes_before(a@.skip(i as int), b@.skip(i as int)),
        decreases a_len - i,
    {
        let x: char = a.get_char(i);
        let y: char = b.get_char(i);
        proof {
            assert(a@.skip(i as int)[0] == x);
            assert(b@.skip(i as int)[0] == y);
            assert(a@.skip(i as int).drop_first() =~= a@.skip(i + 1));
            assert(b@.skip(i as int).drop_first() =~= b@.skip(i + 1));
        }
        if x != y {
            return x < y;
        }
        i = i + 1;
    }
    i < b_len
}

/// The path is of the kind that the mode opens: a file to serve from, a
/// directory to build in.
pub open spec fn path_fits(mode: Mode, is_file: bool, is_dir: bool) -> bool {
    match mode {
        Mode::Serve => is_file,
        Mode::Build => is_dir,
    }
}

/// The text is the name of a database.
pub open spec fn is_name(text: Seq<char>) -> bool {
    exists|language: Seq<char>, date: Seq<char>|
        is_language_code(language) && is_date_code(date) && text == #[trigger] name_of(
            language,
            date,
        )
}

/// Whether a database can be opened at a path in the mode, given what kind
/// of path it is and what its last part is called; and if so, the metadata
/// of the database. A path of the wrong kind holds no database; a path of
/// the right kind must carry the name of one.
pub fn check_path(mode: Mode, is_file: bool, is_dir: bool, name: &str) -> (checked: Result<
    Metadata,
    Error,
>)
    ensures
        checked is Ok <==> path_fits(mode, is_file, is_dir) && is_name(name@),
        checked matches Ok(m) ==> name@ == name_of(m.language_code@, m.date_code@)
            && is_language_code(m.language_code@) && is_date_code(m.date_code@),
        checked matches Err(e) ==> e == (if path_fits(mode, is_file, is_dir) {
            Error::InvalidArtifactPath
        } else {
            Error::NotADatabase
        }),
{
    let fits = match mode {
        Mode::Serve => is_file,
        Mode::Build => is_dir,
    };
    if !fits {
        return Err(Error::NotADatabase);
    }
    Metadata::from_name(name)
}

/// Whether the database that was built can be copied to the path that it is
/// served from: only a database that was opened to build is copied, and
/// nothing may stand at the path yet.
pub fn check_copy(mode: Mode, target_exists: bool) -> (checked: Result<(), Error>)
    ensures
        checked is Ok <==> mode == Mode::Build && !target_exists,
        checked matches Err(e) ==> e == (if mode == Mode::Build {
            Error::ArtifactAlreadyExists
        } else {
            Error::NotADatabase
        }),
{
    match mode {
        Mode::Serve => Err(Error::NotADatabase),
        Mode::Build => {
            if target_exists {
                Err(Error::ArtifactAlreadyExists)
            } else {
                Ok(())
            }
        },
    }
}

/// Whether a database that is opened to serve from holds its three tables.
pub fn check_tables(has_redirects: bool, has_incoming: bool, has_outgoing: bool) -> (checked:
    Result<(), Error>)
    ensures
        checked is Ok <==> has_redirects && has_incoming && has_outgoing,
        checked matches Err(e) ==> e == Error::MissingTable,
{
    if has_redirects && has_incoming && has_outgoing {
        Ok(())
    } else {
        Err(Error::MissingTable)
    }
}

impl Metadata {
    /// The metadata that a name carries. A name is `wp-`, a language code of
    /// letters, `-`, and a date code of digits; any other text is no name.
    pub fn from_name(name: &str) -> (parsed: Result<Metadata, Error>)
        ensures
            parsed matches Ok(m) ==> name@ == name_of(m.language_code@, m.date_code@)
                && is_language_code(m.language_code@) && is_date_code(m.date_code@),
            parsed matches Err(e) ==> e == Error::InvalidArtifactPath && forall|
                language: Seq<char>,
                date: Seq<char>,
            |
                is_language_code(language) && is_date_code(date) ==> name@ != #[trigger] name_of(
                    language,
                    date,
                ),
    {
        let len: usize = name.unicode_len();
        let ghost text = name@;
        if len < 3 {
            proof {
                assert forall|language: Seq<char>, date: Seq<char>|
                    is_language_code(language) && is_date_code(date) implies text != #[trigger] name_of(
                        language,
                        date,
                    ) by {
                    assert(name_of(language, date).len() == 4 + language.len() + date.len());
                }
            }
            return Err(Error::InvalidArtifactPath);
        }
        if name.get_char(0) != 'w' || name.get_char(1) != 'p' || name.get_char(2) != '-' {
            proof {
                assert forall|language: Seq<char>, date: Seq<char>|
                    is_language_code(language) && is_date_code(date) implies text != #[trigger] name_of(
                        language,
                        date,
                    ) by {
                    let n = name_of(language, date);
                    assert(n[0] == 'w' && n[1] == 'p' && n[2] == '-');
                }
            }
            return Err(Error::InvalidArtifactPath);
        }
        let mut dash: usize = 3;
        while dash < len && is_letter_char(name.get_char(dash))
            invariant
                3 <= dash <= len,
                len == text.len(),
                text == name@,
                forall|i: int| 3 <= i < dash ==> is_letter(#[trigger] text[i]),
            decreases len - dash,
        {
            dash = dash + 1;
        }
        if dash == 3 || dash >= len || name.get_char(dash) != '-' {
            proof {
                assert forall|language: Seq<char>, date: Seq<char>|
                    is_language_code(language) && is_date_code(date) implies text != #[trigger] name_of(
                        language,
                        date,
                    ) by {
                    let n = name_of(language, date);
                    if text == n {
                        let end = 3 + language.len();
                        assert(n[end as int] == '-');
                        assert(n.len() == 4 + language.len() + date.len());
                        if end < dash {
                            assert(is_letter(text[end as int]));
                        } else if end > dash {
                            assert(n[dash as int] == language[dash - 3]);
                            assert(is_letter(language[dash - 3]));
                        }
                    }
                }
            }
            return Err(Error::InvalidArtifactPath);
        }
        let mut end: usize = dash + 1;
        while end < len && is_digit(name.get_char(end))
            invariant
                dash < end <= len,
                len == text.len(),
                text == name@,
                forall|i: int| dash < i < end ==> is_digit_char(#[trigger] text[i]),
            decreases len - end,
        {
            end = end + 1;
        }
        if end == dash + 1 || end < len {
            proof {
                assert forall|language: Seq<char>, date: Seq<char>|
                    is_language_code(language) && is_date_code(date) implies text != #[trigger] name_of(
                        language,
                        date,
                    ) by {
                    let n = name_of(language, date);
                    if text == n {
                        let at = 3 + language.len();
                        assert(n[at as int] == '-');
                        assert(n.len() == 4 + language.len() + date.len());
                        if at < dash {
                            assert(is_letter(text[at as int]));
                        } else if at > dash {
                            assert(n[dash as int] == language[dash - 3]);
                            assert(is_letter(language[dash - 3]));
                        } else {
                            if end < len {
                                assert(n[end as int] == date[end - dash - 1]);
                                assert(is_digit_char(date[end - dash - 1]));
                            }
                        }
                    }
                }
            }
            return Err(Error::InvalidArtifactPath);
        }
        let language = name.substring_char(3, dash);
        let date = name.substring_char(dash + 1, len);
        let metadata = Metadata {
            language_code: String::from_str(language),
            date_code: String::from_str(date),
        };
        proof {
            assert(text =~= name_of(metadata.language_code@, metadata.date_code@));
        }
        Ok(metadata)
    }

    /// Whether this is a later dump of the same language as `other`.
    pub fn is_newer(&self, other: &Metadata) -> (newer: bool)
        ensures
            newer == (self.language_code@ == other.language_code@ && comes_before(
                other.date_code@,
                self.date_code@,
            )),
    {
        self.language_code == other.language_code && text_comes_before(
            other.date_code.as_str(),
            self.date_code.as_str(),
        )
    }

    /// Whether this is a dump of the same language as `other` and of another
    /// date: what a build of `other` makes superfluous.
    pub fn is_other_date_of(&self, other: &Metadata) -> (superfluous: bool)
        ensures
            superfluous == (self.language_code@ == other.language_code@ && self.date_code@
                != other.date_code@),
    {
        self.language_code == other.language_code && !(self.date_code == other.date_code)
    }

    /// Whether this is an earlier dump of the same language as `other`.
    pub fn is_older(&self, other: &Metadata) -> (older: bool)
        ensures
            older == (self.language_code@ == other.language_code@ && comes_before(
                self.date_code@,
                other.date_code@,
            )),
    {
        self.language_code == other.language_code && text_comes_before(
            self.date_code.as_str(),
            other.date_code.as_str(),
        )
    }

    /// The name that carries this metadata.
    pub fn to_name(&self) -> (name: String)
        ensures
            name@ == name_of(self.language_code@, self.date_code@),
    {
        proof {
            reveal_strlit("wp-");
            reveal_strlit("-");
        }
        let mut name = String::from_str("wp-");
        name.append(self.language_code.as_str());
        name.append("-");
        name.append(self.date_code.as_str());
        assert(name@ =~= name_of(self.language_code@, self.date_code@));
        name
    }

    /// The name of the database while it is being built.
    pub fn to_tmp_name(&self) -> (name: String)
        ensures
            name@ == tmp_name_of(self.language_code@, self.date_code@),
    {
        proof {
            reveal_strlit("-tmp");
        }
        let mut name = self.to_name();
        name.append("-tmp");
        assert(name@ =~= tmp_name_of(self.language_code@, self.date_code@));
        name
    }
}

/// `a` is a later dump of the language of `b`.
pub open spec fn newer_than(a: Metadata, b: Metadata) -> bool {
    a.language_code@ == b.language_code@ && comes_before(b.date_code@, a.date_code@)
}

/// Some entry of `found` is a later dump of the language of the entry at `i`.
pub open spec fn outdated(found: Seq<Metadata>, i: int) -> bool {
    exists|j: int| 0 <= j < found.len() && newer_than(#[trigger] found[j], found[i])
}

/// The places of the entries to keep, in their order: of each language the
/// latest dump. An entry is kept exactly when no entry is a later dump of its
/// language.
pub fn keep_newest(found: &Vec<Metadata>) -> (kept: Vec<usize>)
    ensures
        forall|k: int|
            0 <= k < kept@.len() ==> (#[trigger] kept@[k]) < found@.len() && !outdated(
                found@,
                kept@[k] as int,
            ),
        forall|i: int|
            0 <= i < found@.len() && !outdated(found@, i) ==> kept@.contains(i as usize),
        forall|a: int, b: int| 0 <= a < b < kept@.len() ==> kept@[a] < kept@[b],
{
    let mut kept: Vec<usize> = Vec::new();
    let mut i: usize = 0;
    while i < found.len()
        invariant
            i <= found@.len(),
            forall|k: int|
                0 <= k < kept@.len() ==> (#[trigger] kept@[k]) < i && !outdated(
                    found@,
                    kept@[k] as int,
                ),
            forall|x: int| 0 <= x < i && !outdated(found@, x) ==> kept@.contains(x as usize),
            forall|a: int, b: int| 0 <= a < b < kept@.len() ==> kept@[a] < kept@[b],
        decreases found@.len() - i,
    {
        let mut newer: bool = false;
        let mut j: usize = 0;
        while j < found.len()
            invariant
                i < found@.len(),
                j <= found@.len(),
                newer == (exists|x: int| 0 <= x < j && newer_than(#[trigger] found@[x], found@[i as int])),
            decreases found@.len() - j,
        {
            if found[j].is_newer(&found[i]) {
                newer = true;
            }
            j = j + 1;
        }
        if !newer {
            let ghost before = kept@;
            kept.push(i);
            proof {
                assert(kept@[before.len() as int] == i);
                assert forall|x: int| 0 <= x < i + 1 && !outdated(found@, x) implies kept@.contains(
                    x as usize,
                ) by {
                    if x < i {
                        let k = choose|k: int| 0 <= k < before.len() && before[k] == x as usize;
                        assert(kept@[k] == x as usize);
                    }
                }
            }
        }
        i = i + 1;
    }
    kept
}

} // verus!
