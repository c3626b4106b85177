//! Data model: user status records, their mathematical view, and the
//! closed set of status values accepted at the boundary.
use vstd::prelude::*;

verus! {

/// Mathematical view of a stored user status record.
pub ghost struct RecordView {
    pub subject_id: int,
    pub status: Seq<char>,
    pub rating: Option<i32>,
    pub tags: Option<Seq<char>>,
    pub marked_at: Seq<char>,
}

/// One row of per-item user state: which item, what the user did with it,
/// an optional rating and free-form tags, and when it was marked.
pub struct UserAnimeData {
    pub subject_id: i64,
    pub status: String,
    pub rating: Option<i32>,
    pub tags: Option<String>,
    pub marked_at: String,
}

impl View for UserAnimeData {
    type V = RecordView;

    open spec fn view(&self) -> RecordView {
        RecordView {
            subject_id: self.subject_id as int,
            status: self.status@,
            rating: self.rating,
            tags: match self.tags {
                Some(t) => Some(t@),
                None => None,
            },
            marked_at: self.marked_at@,
        }
    }
}

impl Clone for UserAnimeData {
    fn clone(&self) -> (r: Self)
        ensures
            r@ == self@,
    {
        UserAnimeData {
            subject_id: self.subject_id,
            status: self.status.clone(),
            rating: self.rating,
            tags: match &self.tags {
                Some(t) => Some(t.clone()),
                None => None,
            },
            marked_at: self.marked_at.clone(),
        }
    }
}

/// The closed set of status values the store accepts.
pub open spec fn valid_status(s: Seq<char>) -> bool {
    ||| s == "watched"@
    ||| s == "wishlist"@
    ||| s == "skipped"@
}

/// Character-by-character string equality, proved against the views.
pub fn str_eq(a: &str, b: &str) -> (r: bool)
    ensures
        r == (a@ == b@),
{
    let alen = a.unicode_len();
    let blen = b.unicode_len();
    if alen != blen {
        assert(a@ != b@) by {
            assert(a@.len() != b@.len());
        }
        return false;
    }
    let mut i: usize = 0;
    while i < alen
        invariant
            0 <= i <= alen,
            alen == a@.len() && alen == b@.len(),
            forall|j: int| 0 <= j < i ==> a@[j] == b@[j],
        decreases alen - i,
    {
        if a.get_char(i) != b.get_char(i) {
            return false;
        }
        i += 1;
    }
    proof {
        assert(a@ =~= b@);
    }
    true
}

/// Whether this string is one of the accepted status values.
pub fn is_valid_status(s: &str) -> (r: bool)
    ensures
        r == valid_status(s@),
{
    str_eq(s, "watched") || str_eq(s, "wishlist") || str_eq(s, "skipped")
}

impl UserAnimeData {
    /// Whether the record carries an accepted status value.
    pub open spec fn spec_valid(&self) -> bool {
        valid_status(self.status@)
    }

    /// Boundary validation: accept only the closed status set.
    pub fn is_valid(&self) -> (r: bool)
        ensures
            r == self.spec_valid(),
    {
        is_valid_status(self.status.as_str())
    }
}

/// The textual boolean tokens the static catalog uses, normalized to `bool`;
/// any other token is rejected.
pub open spec fn spec_bool_token(s: Seq<char>) -> Option<bool> {
    if s == "True"@ || s == "true"@ || s == "TRUE"@ {
        Some(true)
    } else if s == "False"@ || s == "false"@ || s == "FALSE"@ {
        Some(false)
    } else {
        None
    }
}

/// Parses the catalog's textual boolean field: exactly the tokens
/// `True`/`true`/`TRUE` and `False`/`false`/`FALSE` are accepted.
pub fn bool_from_python_string(s: &str) -> (r: Option<bool>)
    ensures
        r == spec_bool_token(s@),
{
    if str_eq(s, "True") || str_eq(s, "true") || str_eq(s, "TRUE") {
        Some(true)
    } else if str_eq(s, "False") || str_eq(s, "false") || str_eq(s, "FALSE") {
        Some(false)
    } else {
        None
    }
}

} // verus!
