//! The header of a Matrix Market file.
use crate::errors::{err_view, header_err, ParseErr, ParseErrKind};
use crate::text::{lowercased, split_chars, split_pat, str_eq, to_lowercase, chars_of, string_of};
use vstd::prelude::*;
use vstd::string::StringExecFns;

verus! {

/// The kind of object a file holds.
#[derive(Debug, Clone, Copy, PartialEq, Eq, Structural)]
pub enum Object {
    Matrix,
    Vector,
}

/// `"Unknow " + what + " : '" + word + "'."`, the message for a word that
/// names nothing of its kind.
pub open spec fn unknown_word(what: Seq<char>, word: Seq<char>) -> Seq<char> {
    "Unknow "@ + what + " : '"@ + word + "'."@
}

fn unknown_word_message(what: &str, word: &str) -> (r: String)
    ensures
        r@ == unknown_word(what@, word@),
{
    let mut r = String::from_str("Unknow ");
    r.append(what);
    r.append(" : '");
    r.append(word);
    r.append("'.");
    r
}

/// The object that the lowercase word `w` names.
pub open spec fn object_of(w: Seq<char>) -> Option<Object> {
    if w == "matrix"@ {
        Some(Object::Matrix)
    } else if w == "vector"@ {
        Some(Object::Vector)
    } else {
        None
    }
}

impl Object {
    /// The object that the lowercase word `word` names, or a header error.
    pub fn from_lowercase(word: &str) -> (r: Result<Object, ParseErr>)
        ensures
            match object_of(word@) {
                Some(o) => r == Ok::<Object, ParseErr>(o),
                None => r matches Err(e) && e@ == header_err(unknown_word("Object"@, word@)),
            },
    {
        if str_eq(word, "matrix") {
            Ok(Object::Matrix)
        } else if str_eq(word, "vector") {
            Ok(Object::Vector)
        } else {
            Err(ParseErr::Header(unknown_word_message("Object", word)))
        }
    }
}

impl TryFrom<&str> for Object {
    type Error = ParseErr;

    fn try_from(value: &str) -> (r: Result<Object, ParseErr>)
        ensures
            match object_of(lowercased(value@)) {
                Some(o) => r == Ok::<Object, ParseErr>(o),
                None => r matches Err(e) && e@ == header_err(unknown_word("Object"@, lowercased(value@))),
            },
    {
        let lower = to_lowercase(value);
        Object::from_lowercase(lower.as_str())
    }
}

impl vstd::std_specs::convert::TryFromSpecImpl<&str> for Object {
    open spec fn obeys_try_from_spec() -> bool {
        false
    }

    open spec fn try_from_spec(v: &str) -> Result<Object, ParseErr> {
        arbitrary()
    }
}

/// The layout of the entries of a file.
#[derive(Debug, Clone, Copy, PartialEq, Eq, Structural)]
pub enum Format {
    Coordinate,
    Array,
}

/// The kind of number an entry holds.
#[derive(Debug, Clone, Copy, PartialEq, Eq, Structural)]
pub enum Field {
    Real,
    Double,
    Complex,
    Integer,
    Pattern,
}

/// The symmetry of a matrix.
#[derive(Debug, Clone, Copy, PartialEq, Eq, Structural)]
pub enum Symmetry {
    General,
    Symmetric,
    SkewSymmetric,
    Hermitian,
}

/// The header line of a Matrix Market file.
#[derive(Debug, Clone, Copy, PartialEq, Eq, Structural)]
pub struct Header(pub Object, pub Format, pub Field, pub Symmetry);

/// The format that the lowercase word `w` names.
pub open spec fn format_of(w: Seq<char>) -> Option<Format> {
    if w == "coordinate"@ {
        Some(Format::Coordinate)
    } else if w == "array"@ {
        Some(Format::Array)
    } else {
        None
    }
}

impl Format {
    /// The format that the lowercase word `word` names, or a header error.
    pub fn from_lowercase(word: &str) -> (r: Result<Format, ParseErr>)
        ensures
            match format_of(word@) {
                Some(x) => r == Ok::<Format, ParseErr>(x),
                None => r matches Err(e) && e@ == header_err(unknown_word("Format"@, word@)),
            },
    {
        if str_eq(word, "coordinate") {
            Ok(Format::Coordinate)
        } else if str_eq(word, "array") {
            Ok(Format::Array)
        } else {
            Err(ParseErr::Header(unknown_word_message("Format", word)))
        }
    }
}

impl TryFrom<&str> for Format {
    type Error = ParseErr;

    fn try_from(value: &str) -> (r: Result<Format, ParseErr>)
        ensures
            match format_of(lowercased(value@)) {
                Some(x) => r == Ok::<Format, ParseErr>(x),
                None => r matches Err(e) && e@ == header_err(unknown_word("Format"@, lowercased(value@))),
            },
    {
        let lower = to_lowercase(value);
        Format::from_lowercase(lower.as_str())
    }
}

impl vstd::std_specs::convert::TryFromSpecImpl<&str> for Format {
    open spec fn obeys_try_from_spec() -> bool {
        false
    }

    open spec fn try_from_spec(v: &str) -> Result<Format, ParseErr> {
        arbitrary()
    }
}

/// The field that the lowercase word `w` names.
pub open spec fn field_of(w: Seq<char>) -> Option<Field> {
    if w == "real"@ {
        Some(Field::Real)
    } else if w == "double"@ {
        Some(Field::Double)
    } else if w == "complex"@ {
        Some(Field::Complex)
    } else if w == "integer"@ {
        Some(Field::Integer)
    } else if w == "pattern"@ {
        Some(Field::Pattern)
    } else {
        None
    }
}

impl Field {
    /// The field that the lowercase word `word` names, or a header error.
    pub fn from_lowercase(word: &str) -> (r: Result<Field, ParseErr>)
        ensures
            match field_of(word@) {
                Some(x) => r == Ok::<Field, ParseErr>(x),
                None => r matches Err(e) && e@ == header_err(unknown_word("Field"@, word@)),
            },
    {
        if str_eq(word, "real") {
            Ok(Field::Real)
        } else if str_eq(word, "double") {
            Ok(Field::Double)
        } else if str_eq(word, "complex") {
            Ok(Field::Complex)
        } else if str_eq(word, "integer") {
            Ok(Field::Integer)
        } else if str_eq(word, "pattern") {
            Ok(Field::Pattern)
        } else {
            Err(ParseErr::Header(unknown_word_message("Field", word)))
        }
    }
}

impl TryFrom<&str> for Field {
    type Error = ParseErr;

    fn try_from(value: &str) -> (r: Result<Field, ParseErr>)
        ensures
            match field_of(lowercased(value@)) {
                Some(x) => r == Ok::<Field, ParseErr>(x),
                None => r matches Err(e) && e@ == header_err(unknown_word("Field"@, lowercased(value@))),
            },
    {
        let lower = to_lowercase(value);
        Field::from_lowercase(lower.as_str())
    }
}

impl vstd::std_specs::convert::TryFromSpecImpl<&str> for Field {
    open spec fn obeys_try_from_spec() -> bool {
        false
    }

    open spec fn try_from_spec(v: &str) -> Result<Field, ParseErr> {
        arbitrary()
    }
}

/// The symmetry that the lowercase word `w` names.
pub open spec fn symmetry_of(w: Seq<char>) -> Option<Symmetry> {
    if w == "general"@ {
        Some(Symmetry::General)
    } else if w == "symmetric"@ {
        Some(Symmetry::Symmetric)
    } else if w == "skew_symmetric"@ {
        Some(Symmetry::SkewSymmetric)
    } else if w == "hermitian"@ {
        Some(Symmetry::Hermitian)
    } else {
        None
    }
}

impl Symmetry {
    /// The symmetry that the lowercase word `word` names, or a header error.
    pub fn from_lowercase(word: &str) -> (r: Result<Symmetry, ParseErr>)
        ensures
            match symmetry_of(word@) {
                Some(x) => r == Ok::<Symmetry, ParseErr>(x),
                None => r matches Err(e) && e@ == header_err(unknown_word("Symmetry"@, word@)),
            },
    {
        if str_eq(word, "general") {
            Ok(Symmetry::General)
        } else if str_eq(word, "symmetric") {
            Ok(Symmetry::Symmetric)
        } else if str_eq(word, "skew_symmetric") {
            Ok(Symmetry::SkewSymmetric)
        } else if str_eq(word, "hermitian") {
            Ok(Symmetry::Hermitian)
        } else {
            Err(ParseErr::Header(unknown_word_message("Symmetry", word)))
        }
    }
}

impl TryFrom<&str> for Symmetry {
    type Error = ParseErr;

    fn try_from(value: &str) -> (r: Result<Symmetry, ParseErr>)
        ensures
            match symmetry_of(lowercased(value@)) {
                Some(x) => r == Ok::<Symmetry, ParseErr>(x),
                None => r matches Err(e) && e@ == header_err(unknown_word("Symmetry"@, lowercased(value@))),
            },
    {
        let lower = to_lowercase(value);
        Symmetry::from_lowercase(lower.as_str())
    }
}

impl vstd::std_specs::convert::TryFromSpecImpl<&str> for Symmetry {
    open spec fn obeys_try_from_spec() -> bool {
        false
    }

    open spec fn try_from_spec(v: &str) -> Result<Symmetry, ParseErr> {
        arbitrary()
    }
}

/// The header that the line `line` describes: the words after the first
/// space-separated piece name, in order, the object, format, field and symmetry,
/// each compared in lowercase.
pub open spec fn header_of(line: Option<Seq<char>>) -> Result<Header, (ParseErrKind, Seq<char>, usize)> {
    match line {
        None => Err(header_err("There isn't the header line."@)),
        Some(content) => {
            let parts = split_pat(content, " "@);
            if parts.len() < 2 {
                Err(header_err("There isn't the object header."@))
            } else {
                match object_of(lowercased(parts[1])) {
                    None => Err(header_err(unknown_word("Object"@, lowercased(parts[1])))),
                    Some(obj) => if parts.len() < 3 {
                        Err(header_err("There isn't the format header."@))
                    } else {
                        match format_of(lowercased(parts[2])) {
                            None => Err(header_err(unknown_word("Format"@, lowercased(parts[2])))),
                            Some(fmt) => if parts.len() < 4 {
                                Err(header_err("There isn't the field header."@))
                            } else {
                                match field_of(lowercased(parts[3])) {
                                    None => Err(
                                        header_err(unknown_word("Field"@, lowercased(parts[3]))),
                                    ),
                                    Some(field) => if parts.len() < 5 {
                                        Err(header_err("There isn't the symmetry header."@))
                                    } else {
                                        match symmetry_of(lowercased(parts[4])) {
                                            None => Err(
                                                header_err(
                                                    unknown_word("Symmetry"@, lowercased(parts[4])),
                                                ),
                                            ),
                                            Some(sym) => Ok(Header(obj, fmt, field, sym)),
                                        }
                                    },
                                }
                            },
                        }
                    },
                }
            }
        },
    }
}

/// The characters of an optional string.
pub open spec fn opt_view(s: Option<String>) -> Option<Seq<char>> {
    match s {
        Some(t) => Some(t@),
        None => None,
    }
}

impl TryFrom<Option<String>> for Header {
    type Error = ParseErr;

    fn try_from(value: Option<String>) -> (r: Result<Header, ParseErr>)
        ensures
            err_view(r) == header_of(opt_view(value)),
    {
        let content = match value {
            Some(c) => c,
            None => {
                return Err(ParseErr::Header(String::from_str("There isn't the header line.")));
            },
        };
        let chars = chars_of(content.as_str());
        let space = chars_of(" ");
        let parts = split_chars(chars.as_slice(), space.as_slice());
        let ghost pv = parts@.map_values(|v: Vec<char>| v@);
        assert(pv == split_pat(content@, " "@));
        if parts.len() < 2 {
            return Err(ParseErr::Header(String::from_str("There isn't the object header.")));
        }
        assert(pv[1] == parts@[1]@);
        let w = string_of(parts[1].as_slice());
        let obj = match Object::try_from(w.as_str()) {
            Ok(o) => o,
            Err(e) => {
                return Err(e);
            },
        };
        if parts.len() < 3 {
            return Err(ParseErr::Header(String::from_str("There isn't the format header.")));
        }
        assert(pv[2] == parts@[2]@);
        let w = string_of(parts[2].as_slice());
        let fmt = match Format::try_from(w.as_str()) {
            Ok(o) => o,
            Err(e) => {
                return Err(e);
            },
        };
        if parts.len() < 4 {
            return Err(ParseErr::Header(String::from_str("There isn't the field header.")));
        }
        assert(pv[3] == parts@[3]@);
        let w = string_of(parts[3].as_slice());
        let field = match Field::try_from(w.as_str()) {
            Ok(o) => o,
            Err(e) => {
                return Err(e);
            },
        };
        if parts.len() < 5 {
            return Err(ParseErr::Header(String::from_str("There isn't the symmetry header.")));
        }
        assert(pv[4] == parts@[4]@);
        let w = string_of(parts[4].as_slice());
        let sym = match Symmetry::try_from(w.as_str()) {
            Ok(o) => o,
            Err(e) => {
                return Err(e);
            },
        };
        Ok(Header(obj, fmt, field, sym))
    }
}

impl vstd::std_specs::convert::TryFromSpecImpl<Option<String>> for Header {
    open spec fn obeys_try_from_spec() -> bool {
        false
    }

    open spec fn try_from_spec(v: Option<String>) -> Result<Header, ParseErr> {
        arbitrary()
    }
}

} // verus!
