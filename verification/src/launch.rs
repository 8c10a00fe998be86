//! Decisions taken while the program starts: whether a server address stays
//! on this machine, and which local file a launch asks to open.

use vstd::prelude::*;

verus! {

/// Whether `octets` is an IPv4 loopback address (`127.0.0.0/8`): a server
/// bound there is reachable from this machine only.
pub fn is_loopback_host(octets: [u8; 4]) -> (r: bool)
    ensures
        r == (octets[0] == 127u8),
{
    octets[0] == 127u8
}

#[verifier::external_type_specification]
#[verifier::external_body]
pub struct ExUrl(url::Url);

/// `url::Url::to_file_path`: the local path a `file:` URL names. Nothing is
/// stated of the result: the crate decides it by the URL's host and path
/// segments, and differently on each platform.
#[verifier::external_body]
fn local_path_of(url: &url::Url) -> (r: Option<std::path::PathBuf>) {
    url.to_file_path().ok()
}

/// The first path found: the first `Some` in `found`.
pub open spec fn first_found<T>(found: Seq<Option<T>>) -> Option<T>
    decreases found.len(),
{
    if found.len() == 0 {
        None
    } else if found[0] is Some {
        found[0]
    } else {
        first_found(found.drop_first())
    }
}

/// The first path among the conversions `found` of a launch's URLs, in the
/// order the URLs came: the first local file wins.
pub fn first_found_path(found: Vec<Option<std::path::PathBuf>>) -> (r: Option<std::path::PathBuf>)
    ensures
        r == first_found(found@),
{
    let mut rest = found;
    let ghost all = rest@;
    assert(rest@ =~= all.skip(0));
    while rest.len() > 0
        invariant
            all == found@,
            exists|k: int| 0 <= k <= all.len() && rest@ =~= all.skip(k) && first_found(all) == first_found(all.skip(k)),
        decreases rest@.len(),
    {
        let ghost k = choose|k: int| 0 <= k <= all.len() && rest@ =~= all.skip(k) && first_found(all) == first_found(all.skip(k));
        let head = rest.remove(0);
        proof {
            assert(all.skip(k).len() > 0);
            assert(head == all.skip(k)[0]);
            assert(all.skip(k).drop_first() =~= all.skip(k + 1));
            assert(rest@ =~= all.skip(k + 1));
        }
        if head.is_some() {
            assert(first_found(all.skip(k)) == head);
            return head;
        }
    }
    proof {
        let k = choose|k: int| 0 <= k <= all.len() && rest@ =~= all.skip(k) && first_found(all) == first_found(all.skip(k));
        assert(all.skip(k).len() == 0);
    }
    None
}

/// The first URL in `urls` that names a local file, as a path; `None` when
/// none does, and always for an empty list. A launch can name several
/// documents and also carries the program's own URL scheme; the first local
/// file wins (see [`first_found_path`]). Which URLs name a local file is
/// `url::Url::to_file_path`'s to say, differently on each platform.
pub fn first_local_path(urls: &[url::Url]) -> (r: Option<std::path::PathBuf>)
    ensures
        urls@.len() == 0 ==> r is None,
        exists|found: Seq<Option<std::path::PathBuf>>| found.len() == urls@.len() && r == first_found(found),
{
    let mut found: Vec<Option<std::path::PathBuf>> = Vec::new();
    let mut i: usize = 0;
    while i < urls.len()
        invariant
            i <= urls@.len(),
            found@.len() == i,
        decreases urls@.len() - i,
    {
        found.push(local_path_of(&urls[i]));
        i = i + 1;
    }
    let ghost fv = found@;
    let r = first_found_path(found);
    assert(urls@.len() == 0 ==> fv.len() == 0);
    assert(fv.len() == urls@.len() && r == first_found(fv));
    r
}

} // verus!
