//! Source code locations of framed function bodies.
use vstd::prelude::*;

use crate::text::{decimal, push_decimal};

verus! {

/// A source code location in a function body: the name of the surrounding
/// function (when known), the file, the line and the column.
#[derive(Debug, Copy, Clone, Eq, PartialEq, Ord, PartialOrd, Hash)]
pub struct Location {
    /// The name of the surrounding function.
    name: Option<&'static str>,
    /// The file name, line number, and column number on which the surrounding
    /// function is defined.
    rest: &'static (&'static str, u32, u32),
}

/// What a [`Location`] holds, as mathematical values.
pub struct LocationView {
    pub name: Option<Seq<char>>,
    pub file: Seq<char>,
    pub line: u32,
    pub column: u32,
}

impl View for Location {
    type V = LocationView;

    closed spec fn view(&self) -> LocationView {
        LocationView {
            name: match self.name {
                Some(n) => Some(n@),
                None => None,
            },
            file: self.rest.0@,
            line: self.rest.1,
            column: self.rest.2,
        }
    }
}

/// The text of a location: `{name} at {file}:{line}:{column}`, or
/// `{file}:{line}:{column}` when the function name is unknown.
pub open spec fn location_text(l: LocationView) -> Seq<char> {
    let place = l.file + seq![':'] + decimal(l.line as nat) + seq![':'] + decimal(
        l.column as nat,
    );
    match l.name {
        Some(n) => n + seq![' ', 'a', 't', ' '] + place,
        None => place,
    }
}

/// The text of a location: its name, ` at `, then its file, line and column
/// separated by `:`; without a name, the file, line and column alone.
pub proof fn lemma_location_text(l: LocationView)
    ensures
        l.name matches Some(n) ==> location_text(l) == n + " at "@ + l.file + ":"@ + decimal(
            l.line as nat,
        ) + ":"@ + decimal(l.column as nat),
        l.name is None ==> location_text(l) == l.file + ":"@ + decimal(l.line as nat) + ":"@
            + decimal(l.column as nat),
{
    reveal_strlit(" at ");
    reveal_strlit(":");
    let place = l.file + seq![':'] + decimal(l.line as nat) + seq![':'] + decimal(l.column as nat);
    match l.name {
        Some(n) => {
            assert(location_text(l) =~= n + " at "@ + l.file + ":"@ + decimal(l.line as nat) + ":"@
                + decimal(l.column as nat));
        },
        None => {
            assert(location_text(l) =~= l.file + ":"@ + decimal(l.line as nat) + ":"@ + decimal(
                l.column as nat,
            ));
        },
    }
}

/// The views of a sequence of locations.
pub open spec fn location_views(v: Seq<Location>) -> Seq<LocationView> {
    Seq::new(v.len(), |k: int| v[k]@)
}

impl Location {
    /// Builds a location from the name of the surrounding function and its
    /// file, line and column.
    #[inline(always)]
    pub fn from_components(name: &'static str, rest: &'static (&'static str, u32, u32)) -> (l:
        Self)
        ensures
            l@.name == Some(name@),
            l@.file == rest.0@,
            l@.line == rest.1,
            l@.column == rest.2,
    {
        Self { name: Some(name), rest }
    }

    /// Produces the function name associated with this location.
    pub fn name(&self) -> (n: Option<&str>)
        ensures
            n matches Some(s) ==> self@.name == Some(s@),
            n is None <==> self@.name is None,
    {
        self.name
    }

    /// Produces the file name associated with this location.
    pub fn file(&self) -> (f: &str)
        ensures
            f@ == self@.file,
    {
        self.rest.0
    }

    /// Produces the line number associated with this location.
    pub fn line(&self) -> (n: u32)
        ensures
            n == self@.line,
    {
        self.rest.1
    }

    /// Produces the column number associated with this location.
    pub fn column(&self) -> (n: u32)
        ensures
            n == self@.column,
    {
        self.rest.2
    }

    /// Renders this location as text (see [`location_text`]).
    pub fn to_string(&self) -> (s: String)
        ensures
            s@ == location_text(self@),
    {
        let mut s = String::new();
        proof {
            reveal_strlit(" at ");
            reveal_strlit(":");
        }
        match self.name {
            Some(n) => {
                s.append(n);
                s.append(" at ");
            },
            None => {},
        }
        s.append(self.rest.0);
        s.append(":");
        push_decimal(&mut s, self.rest.1 as u64);
        s.append(":");
        push_decimal(&mut s, self.rest.2 as u64);
        proof {
            let l = self@;
            let place = l.file + seq![':'] + decimal(l.line as nat) + seq![':'] + decimal(
                l.column as nat,
            );
            match self.name {
                Some(n) => {
                    assert(s@ =~= n@ + seq![' ', 'a', 't', ' '] + place);
                },
                None => {
                    assert(s@ =~= place);
                },
            }
        }
        s
    }

    /// Whether two locations hold the same name, file, line and column.
    pub fn same_as(&self, other: &Location) -> (b: bool)
        ensures
            b == (self@ == other@),
    {
        let same_name = match (self.name, other.name) {
            (Some(a), Some(b)) => a.to_owned() == b.to_owned(),
            (None, None) => true,
            _ => false,
        };
        let same_file = self.rest.0.to_owned() == other.rest.0.to_owned();
        let r = same_name && same_file && self.rest.1 == other.rest.1 && self.rest.2 == other.rest.2;
        proof {
            if r {
                assert(self@.name == other@.name);
                assert(self@ == other@);
            }
        }
        r
    }
}

} // verus!
