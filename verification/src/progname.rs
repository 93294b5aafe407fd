use vstd::prelude::*;

verus! {

/// The text after the last `/` of `p` (all of `p` when it has none).
pub open spec fn last_piece(p: Seq<char>) -> Seq<char>
    decreases p.len(),
{
    if p.len() == 0 || p.last() == '/' {
        Seq::empty()
    } else {
        last_piece(p.drop_last()).push(p.last())
    }
}

/// What precedes the last `/` of `p` (nothing when it has none).
pub open spec fn before_last_piece(p: Seq<char>) -> Seq<char> {
    let q = last_piece(p);
    if q.len() >= p.len() {
        Seq::empty()
    } else {
        p.take(p.len() - q.len() - 1)
    }
}

/// The last piece is no longer than the path, and a `/` stands just before it when
/// it is not the whole path.
pub proof fn lemma_last_piece_len(p: Seq<char>)
    ensures
        last_piece(p).len() <= p.len(),
        last_piece(p).len() < p.len() ==> p[p.len() - last_piece(p).len() - 1] == '/',
    decreases p.len(),
{
    if p.len() > 0 && p.last() != '/' {
        lemma_last_piece_len(p.drop_last());
    }
}

/// The final component of a Unix path, as `std::path::Path::file_name` finds it:
/// the path is split at `/`; empty pieces and `.` pieces are skipped from the end;
/// a final `..`, or nothing left, gives `None`.
pub open spec fn path_file_name(p: Seq<char>) -> Option<Seq<char>>
    decreases p.len(),
{
    if p.len() == 0 {
        None
    } else {
        let q = last_piece(p);
        proof {
            lemma_last_piece_len(p);
        }
        if q.len() == 0 || q == seq!['.'] {
            path_file_name(before_last_piece(p))
        } else if q == seq!['.', '.'] {
            None
        } else {
            Some(q)
        }
    }
}

/// Calls `std::path::Path::file_name` on `p` and converts the component back to a
/// `String` (a component of a `&str` path is always valid UTF-8). The contract
/// claims that the result is the component that `path_file_name` describes.
#[verifier::external_body]
fn file_name(p: &str) -> (r: Option<String>)
    ensures
        r is Some <==> path_file_name(p@) is Some,
        r matches Some(n) ==> path_file_name(p@) == Some(n@),
{
    std::path::Path::new(p).file_name().and_then(|n| n.to_str()).map(String::from)
}

/// The program name that `argv[0]` gives: its final path component, or `fallback`
/// when there is no `argv[0]` or it has no final component.
pub fn progname_of(arg0: Option<&str>, fallback: &str) -> (r: String)
    ensures
        r@ == match arg0 {
            Some(a) => match path_file_name(a@) {
                Some(n) => n,
                None => fallback@,
            },
            None => fallback@,
        },
{
    match arg0 {
        Some(a) => match file_name(a) {
            Some(n) => n,
            None => fallback.to_owned(),
        },
        None => fallback.to_owned(),
    }
}

} // verus!
