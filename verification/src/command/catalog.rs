//! The catalog of models: which files belong to it, and where it can be
//! downloaded.
use vstd::prelude::*;

use crate::text::{
    cat, cat4, chars_of, ends_with, has_end, index_from, index_of, same, text_between, texts,
};

verus! {

/// The texts of the modules and of the SID files of a catalog.
#[derive(Debug)]
pub struct CatalogFiles {
    pub yang: Vec<String>,
    pub sid: Vec<String>,
}

/// Why there is no catalog.
#[derive(Debug)]
pub struct CatalogError(pub String);

/// The kind of a file by its name.
#[derive(Debug, Clone, Copy, PartialEq, Eq, Structural)]
pub enum FileKind {
    Yang,
    Sid,
    Other,
}

/// The kind of a file by the end of its name.
pub open spec fn kind_of(name: Seq<char>) -> FileKind {
    if has_end(name, ".yang"@) {
        FileKind::Yang
    } else if has_end(name, ".sid"@) {
        FileKind::Sid
    } else {
        FileKind::Other
    }
}

/// The kind of a file by the end of its name.
pub fn file_kind(name: &str) -> (r: FileKind)
    ensures
        r == kind_of(name@),
{
    if ends_with(name, ".yang") {
        FileKind::Yang
    } else if ends_with(name, ".sid") {
        FileKind::Sid
    } else {
        FileKind::Other
    }
}

/// The kind of a file by its extension.
pub open spec fn kind_of_extension(extension: Seq<char>) -> FileKind {
    if extension == "yang"@ {
        FileKind::Yang
    } else if extension == "sid"@ {
        FileKind::Sid
    } else {
        FileKind::Other
    }
}

/// The kind of a file by its extension.
pub fn extension_kind(extension: &str) -> (r: FileKind)
    ensures
        r == kind_of_extension(extension@),
{
    if same(extension, "yang") {
        FileKind::Yang
    } else if same(extension, "sid") {
        FileKind::Sid
    } else {
        FileKind::Other
    }
}

/// The names of one kind among the first `n`.
pub open spec fn of_kind(files: Seq<Seq<char>>, kind: FileKind, n: int) -> Seq<Seq<char>>
    decreases n,
{
    if n <= 0 {
        Seq::empty()
    } else if kind_of(files[n - 1]) == kind {
        of_kind(files, kind, n - 1).push(files[n - 1])
    } else {
        of_kind(files, kind, n - 1)
    }
}

/// Sorts file names by their kind: modules, SID files, and the rest. Within a
/// kind they keep their order.
pub fn partition_catalog_files(files: &[String]) -> (r: (Vec<String>, Vec<String>, Vec<String>))
    ensures
        texts(r.0@) == of_kind(texts(files@), FileKind::Yang, files@.len() as int),
        texts(r.1@) == of_kind(texts(files@), FileKind::Sid, files@.len() as int),
        texts(r.2@) == of_kind(texts(files@), FileKind::Other, files@.len() as int),
{
    let ghost all = texts(files@);
    let mut yangs: Vec<String> = Vec::new();
    let mut sids: Vec<String> = Vec::new();
    let mut rest: Vec<String> = Vec::new();
    let mut i: usize = 0;
    assert(texts(yangs@) =~= Seq::empty());
    assert(texts(sids@) =~= Seq::empty());
    assert(texts(rest@) =~= Seq::empty());
    while i < files.len()
        invariant
            i <= files@.len(),
            all == texts(files@),
            texts(yangs@) == of_kind(all, FileKind::Yang, i as int),
            texts(sids@) == of_kind(all, FileKind::Sid, i as int),
            texts(rest@) == of_kind(all, FileKind::Other, i as int),
        decreases files@.len() - i,
    {
        assert(all[i as int] == files@[i as int]@);
        let f = files[i].clone();
        let ghost y = texts(yangs@);
        let ghost s = texts(sids@);
        let ghost o = texts(rest@);
        match file_kind(f.as_str()) {
            FileKind::Yang => {
                yangs.push(f);
                assert(texts(yangs@) =~= y.push(f@));
            },
            FileKind::Sid => {
                sids.push(f);
                assert(texts(sids@) =~= s.push(f@));
            },
            FileKind::Other => {
                rest.push(f);
                assert(texts(rest@) =~= o.push(f@));
            },
        }
        i += 1;
    }
    (yangs, sids, rest)
}

/// The name of the file of the module that a SID file is for: what stands
/// before the revision, with the ending of a module.
pub open spec fn module_file(entry: Seq<char>) -> Seq<char> {
    entry.subrange(0, index_from(entry, '@', 0)) + ".yang"@
}

/// The name of the file of the module that a SID file is for.
pub fn yang_file_name(entry: &str) -> (r: String)
    ensures
        r@ == module_file(entry@),
{
    let chars = chars_of(entry);
    let end = index_of(chars.as_slice(), '@', 0);
    let name = text_between(chars.as_slice(), 0, end);
    cat(name.as_str(), ".yang")
}

/// Where catalogs can be downloaded, in the order in which to try.
pub open spec fn mirrors() -> Seq<Seq<char>> {
    seq![
        "http://mscc-ent-open-source.s3-website-eu-west-1.amazonaws.com/public_root/velocitydrivesp/yang-by-sha"@,
        "https://artifacts.microchip.com/artifactory/UNGE-generic-local/lmstax/yang-by-sha"@,
    ]
}

/// The addresses of the catalog with a checksum, in the order in which to
/// try.
pub fn catalog_urls(checksum: &str) -> (r: Vec<String>)
    ensures
        texts(r@) == mirrors().map_values(
            |m: Seq<char>| m + "/"@ + checksum@ + ".tar.gz"@,
        ),
{
    let mut out: Vec<String> = Vec::new();
    out.push(
        cat4(
            "http://mscc-ent-open-source.s3-website-eu-west-1.amazonaws.com/public_root/velocitydrivesp/yang-by-sha",
            "/",
            checksum,
            ".tar.gz",
        ),
    );
    out.push(
        cat4(
            "https://artifacts.microchip.com/artifactory/UNGE-generic-local/lmstax/yang-by-sha",
            "/",
            checksum,
            ".tar.gz",
        ),
    );
    assert(texts(out@) =~= mirrors().map_values(
        |m: Seq<char>| m + "/"@ + checksum@ + ".tar.gz"@,
    ));
    out
}

/// What to do next about a download.
#[derive(Debug)]
pub enum Download {
    /// Try this address.
    Try(String),
    /// No address is left.
    Failed(CatalogError),
}

/// The message once no address is left.
pub open spec fn download_message(checksum: Seq<char>, last_error: Seq<char>) -> Seq<char> {
    "couldn't download the YANG catalog for checksum "@ + checksum
        + " from any known mirror -- check your network connection, or this device's firmware may be too new or too old for this tool. Last error: "@
        + last_error
}

/// What to do next about a download after `tried` addresses failed, the last
/// one with `last_error`.
pub fn next_download(checksum: &str, tried: usize, last_error: &str) -> (r: Download)
    ensures
        match r {
            Download::Try(url) => tried < mirrors().len() && url@ == mirrors()[tried as int] + "/"@
                + checksum@ + ".tar.gz"@,
            Download::Failed(e) => tried >= mirrors().len() && e.0@ == download_message(
                checksum@,
                last_error@,
            ),
        },
{
    let mut urls = catalog_urls(checksum);
    let ghost all = texts(urls@);
    assert(all.len() == mirrors().len());
    if tried < urls.len() {
        assert(all[tried as int] == urls@[tried as int]@);
        Download::Try(urls.swap_remove(tried))
    } else {
        Download::Failed(
            CatalogError(
                cat4(
                    "couldn't download the YANG catalog for checksum ",
                    checksum,
                    " from any known mirror -- check your network connection, or this device's firmware may be too new or too old for this tool. Last error: ",
                    last_error,
                ),
            ),
        )
    }
}

} // verus!
