//! The archive of a generated chain: a zip of its chainspec, spec, key
//! seeds and (when there is one) the `polkajam` binary, built in memory.
use vstd::prelude::*;

use crate::chain::{config_file_name, config_name};
use crate::text::{chars_of, concat, string_of};

verus! {

/// A zip archive being written to memory. The writer's type is generic over
/// `std::io::Write + Seek`, bounds that cannot be declared here, so it is held
/// behind this struct; what it holds is named by `zip_contents`.
#[verifier::external_body]
pub struct ZipArchiveWriter {
    inner: zip::ZipWriter<std::io::Cursor<Vec<u8>>>,
}

#[verifier::external_type_specification]
#[verifier::external_body]
pub struct ExZipError(zip::result::ZipError);

#[verifier::external_type_specification]
#[verifier::external_body]
pub struct ExIoError(std::io::Error);

/// The files a writer holds, in the order they were started: name and bytes.
/// A writer exists only while every operation on it has succeeded: the
/// wrappers below consume it when an operation fails.
pub uninterp spec fn zip_contents(w: ZipArchiveWriter) -> Seq<(Seq<char>, Seq<u8>)>;

/// The bytes of the zip archive that holds these files, written with the
/// crate's default file options.
pub uninterp spec fn zip_bytes(files: Seq<(Seq<char>, Seq<u8>)>) -> Seq<u8>;

/// Whether `start_file(name)` succeeds on a writer that holds `files`.
pub uninterp spec fn zip_start_accepted(files: Seq<(Seq<char>, Seq<u8>)>, name: Seq<char>) -> bool;

/// Whether `write_all(data)` succeeds on a writer that holds `files`, the
/// last of them open.
pub uninterp spec fn zip_write_accepted(files: Seq<(Seq<char>, Seq<u8>)>, data: Seq<u8>) -> bool;

/// Whether `finish` succeeds on a writer that holds `files`.
pub uninterp spec fn zip_finish_accepted(files: Seq<(Seq<char>, Seq<u8>)>) -> bool;

/// The names of files.
pub open spec fn file_names(files: Seq<(Seq<char>, Seq<u8>)>) -> Seq<Seq<char>> {
    files.map_values(|f: (Seq<char>, Seq<u8>)| f.0)
}

/// The number of bytes a character takes in UTF-8.
pub open spec fn utf8_char_len(c: char) -> nat {
    if (c as u32) < 0x80 {
        1
    } else if (c as u32) < 0x800 {
        2
    } else if (c as u32) < 0x10000 {
        3
    } else {
        4
    }
}

/// The number of bytes a text takes in UTF-8.
pub open spec fn utf8_len(s: Seq<char>) -> nat
    decreases s.len(),
{
    if s.len() == 0 {
        0
    } else {
        utf8_len(s.drop_last()) + utf8_char_len(s.last())
    }
}

/// A zip entry name fits the archive's 16-bit name length field.
pub open spec fn name_fits(name: Seq<char>) -> bool {
    utf8_len(name) <= 65535
}

pub proof fn lemma_utf8_len_bounds(s: Seq<char>)
    ensures
        s.len() <= utf8_len(s) <= 4 * s.len(),
    decreases s.len(),
{
    if s.len() > 0 {
        lemma_utf8_len_bounds(s.drop_last());
    }
}

proof fn lemma_utf8_len_append(a: Seq<char>, b: Seq<char>)
    ensures
        utf8_len(a + b) == utf8_len(a) + utf8_len(b),
    decreases b.len(),
{
    if b.len() > 0 {
        lemma_utf8_len_append(a, b.drop_last());
        assert((a + b).drop_last() =~= a + b.drop_last());
    } else {
        assert(a + b =~= a);
    }
}

/// Whether a name fits the archive's name length field (`name_fits`).
pub fn entry_name_fits(name: &str) -> (b: bool)
    ensures
        b == name_fits(name@),
{
    let v = chars_of(name);
    let mut total: u32 = 0;
    let mut i: usize = 0;
    while i < v.len()
        invariant
            i <= v.len(),
            v@ == name@,
            total == utf8_len(v@.take(i as int)),
            total <= 65535,
        decreases v.len() - i,
    {
        let c = v[i];
        let u = c as u32;
        let n: u32 = if u < 0x80 {
            1
        } else if u < 0x800 {
            2
        } else if u < 0x10000 {
            3
        } else {
            4
        };
        assert(v@.take(i + 1).drop_last() =~= v@.take(i as int));
        assert(v@.take(i + 1).last() == c);
        if total + n > 65535 {
            proof {
                let rest = v@.skip(i + 1);
                assert(v@ =~= v@.take(i + 1) + rest);
                lemma_utf8_len_append(v@.take(i + 1), rest);
            }
            return false;
        }
        total = total + n;
        i = i + 1;
    }
    assert(v@.take(i as int) =~= v@);
    true
}

/// `zip::ZipWriter::new` over an empty in-memory buffer: it holds no file.
#[verifier::external_body]
fn zip_new() -> (w: ZipArchiveWriter)
    ensures
        zip_contents(w) == Seq::<(Seq<char>, Seq<u8>)>::empty(),
{
    ZipArchiveWriter { inner: zip::ZipWriter::new(std::io::Cursor::new(Vec::new())) }
}

/// `ZipWriter::start_file` with the default options, for a name of at most
/// 65535 UTF-8 bytes (a longer name makes the crate panic when it writes the
/// name's 16-bit length). When it succeeds, a
/// new, empty file of that name follows the others; the writer is given back
/// only then. It fails on a name that a file already has (the crate's
/// duplicate-name check), and otherwise as `zip_start_accepted` says.
#[verifier::external_body]
fn zip_start_file(w: ZipArchiveWriter, name: &str) -> (r: Result<ZipArchiveWriter, zip::result::ZipError>)
    requires
        name_fits(name@),
    ensures
        r is Ok <==> zip_start_accepted(zip_contents(w), name@),
        file_names(zip_contents(w)).contains(name@) ==> r is Err,
        r matches Ok(w2) ==> zip_contents(w2) == zip_contents(w).push((name@, Seq::<u8>::empty())),
{
    let mut w = w;
    match w.inner.start_file(name, zip::write::SimpleFileOptions::default()) {
        Ok(()) => Ok(w),
        Err(e) => Err(e),
    }
}

/// `Write::write_all` on the writer, after a file was started. When it
/// succeeds, the bytes are appended to the file last started; the writer is
/// given back only then.
#[verifier::external_body]
fn zip_write_all(w: ZipArchiveWriter, data: &Vec<u8>) -> (r: Result<ZipArchiveWriter, std::io::Error>)
    requires
        zip_contents(w).len() > 0,
    ensures
        r is Ok <==> zip_write_accepted(zip_contents(w), data@),
        r matches Ok(w2) ==> zip_contents(w2) == zip_contents(w).drop_last().push(
            (zip_contents(w).last().0, zip_contents(w).last().1 + data@),
        ),
{
    let mut w = w;
    match std::io::Write::write_all(&mut w.inner, data.as_slice()) {
        Ok(()) => Ok(w),
        Err(e) => Err(e),
    }
}

/// `ZipWriter::finish`, then the buffer: when it succeeds, the archive of the
/// files written.
#[verifier::external_body]
fn zip_finish(w: ZipArchiveWriter) -> (r: Result<Vec<u8>, zip::result::ZipError>)
    ensures
        r is Ok <==> zip_finish_accepted(zip_contents(w)),
        r matches Ok(b) ==> b@ == zip_bytes(zip_contents(w)),
{
    match w.inner.finish() {
        Ok(c) => Ok(c.into_inner()),
        Err(e) => Err(e),
    }
}

/// `ZipError`'s message (`Display`).
#[verifier::external_body]
fn zip_error_text(e: &zip::result::ZipError) -> String {
    e.to_string()
}

/// `io::Error`'s message (`Display`).
#[verifier::external_body]
fn io_error_text(e: &std::io::Error) -> String {
    e.to_string()
}

/// The zip writer accepts every step of writing `files` in order: starting
/// each file, writing its bytes, and finishing the archive.
pub open spec fn zip_run_accepted(files: Seq<(Seq<char>, Seq<u8>)>) -> bool {
    &&& forall|i: int|
        0 <= i < files.len() ==> zip_start_accepted(files.take(i), #[trigger] files[i].0)
            && zip_write_accepted(files.take(i).push((files[i].0, Seq::<u8>::empty())), files[i].1)
    &&& zip_finish_accepted(files)
}

/// No two files share a name.
pub open spec fn names_distinct(files: Seq<(Seq<char>, Seq<u8>)>) -> bool {
    forall|i: int, j: int| 0 <= i < j < files.len() ==> #[trigger] files[i].0 != #[trigger] files[j].0
}

/// Writes the files into an archive, in order; fails with the zip writer's
/// message exactly when the writer refuses a step, which it does among
/// others when two files share a name.
pub fn zip_files(files: &Vec<(String, Vec<u8>)>) -> (r: Result<Vec<u8>, String>)
    requires
        forall|i: int| 0 <= i < files.len() ==> name_fits((#[trigger] files[i]).0@),
    ensures
        r is Ok <==> zip_run_accepted(file_views(*files)),
        r is Ok ==> names_distinct(file_views(*files)),
        r matches Ok(b) ==> b@ == zip_bytes(file_views(*files)),
{
    let ghost fv = file_views(*files);
    let mut w = zip_new();
    let mut i: usize = 0;
    assert(fv.take(0) =~= Seq::<(Seq<char>, Seq<u8>)>::empty());
    while i < files.len()
        invariant
            i <= files.len(),
            fv == file_views(*files),
            forall|j: int| 0 <= j < files.len() ==> name_fits((#[trigger] files[j]).0@),
            zip_contents(w) == fv.take(i as int),
            names_distinct(fv.take(i as int)),
            forall|j: int|
                0 <= j < i ==> zip_start_accepted(fv.take(j), #[trigger] fv[j].0) && zip_write_accepted(
                    fv.take(j).push((fv[j].0, Seq::<u8>::empty())),
                    fv[j].1,
                ),
        decreases files.len() - i,
    {
        assert(fv[i as int] == (files[i as int].0@, files[i as int].1@));
        let w1 = match zip_start_file(w, files[i].0.as_str()) {
            Ok(w1) => w1,
            Err(e) => {
                proof {
                    assert(!(zip_start_accepted(fv.take(i as int), fv[i as int].0)));
                    assert(!zip_run_accepted(fv)) by {
                        if zip_run_accepted(fv) {
                            assert(zip_start_accepted(fv.take(i as int), fv[i as int].0));
                        }
                    }
                }
                return Err(zip_error_text(&e));
            },
        };
        let ghost started = fv.take(i as int).push((fv[i as int].0, Seq::<u8>::empty()));
        assert(!file_names(fv.take(i as int)).contains(fv[i as int].0));
        match zip_write_all(w1, &files[i].1) {
            Ok(w2) => {
                w = w2;
            },
            Err(e) => {
                proof {
                    assert(!zip_run_accepted(fv)) by {
                        if zip_run_accepted(fv) {
                            assert(zip_write_accepted(started, fv[i as int].1));
                        }
                    }
                }
                return Err(io_error_text(&e));
            },
        }
        assert(fv.take(i + 1) =~= fv.take(i as int).push((files[i as int].0@, files[i as int].1@)));
        assert(Seq::<u8>::empty() + files[i as int].1@ =~= files[i as int].1@);
        proof {
            assert forall|a: int, b: int| 0 <= a < b < fv.take(i + 1).len() implies #[trigger] fv.take(
                i + 1,
            )[a].0 != #[trigger] fv.take(i + 1)[b].0 by {
                if b == i {
                    assert(file_names(fv.take(i as int))[a] == fv.take(i as int)[a].0);
                    if fv[a].0 == fv[i as int].0 {
                        assert(file_names(fv.take(i as int)).contains(fv[i as int].0));
                    }
                } else {
                    assert(fv.take(i as int)[a] == fv[a]);
                    assert(fv.take(i as int)[b] == fv[b]);
                }
            }
        }
        i = i + 1;
    }
    assert(fv.take(i as int) =~= fv);
    match zip_finish(w) {
        Ok(b) => Ok(b),
        Err(e) => Err(zip_error_text(&e)),
    }
}

/// Files as names and bytes.
pub open spec fn file_views(files: Vec<(String, Vec<u8>)>) -> Seq<(Seq<char>, Seq<u8>)> {
    files@.map_values(|f: (String, Vec<u8>)| (f.0@, f.1@))
}

/// The files of a chain's archive, in order: the chainspec, `spec.json`,
/// each key seed under `keys/`, and the `polkajam` binary when there is one.
pub open spec fn archive_files(
    chain_id: Seq<char>,
    config: Seq<u8>,
    spec: Seq<u8>,
    seeds: Seq<(Seq<char>, Seq<u8>)>,
    bin: Option<Seq<u8>>,
) -> Seq<(Seq<char>, Seq<u8>)> {
    seq![(config_name(chain_id), config), ("spec.json"@, spec)] + seeds.map_values(
        |f: (Seq<char>, Seq<u8>)| ("keys/"@ + f.0, f.1),
    ) + match bin {
        Some(b) => seq![("polkajam"@, b)],
        None => Seq::empty(),
    }
}

fn copy_bytes(v: &Vec<u8>) -> (r: Vec<u8>)
    ensures
        r@ == v@,
{
    let mut r: Vec<u8> = Vec::new();
    let mut i: usize = 0;
    while i < v.len()
        invariant
            i <= v.len(),
            r@ == v@.take(i as int),
        decreases v.len() - i,
    {
        r.push(v[i]);
        i = i + 1;
        assert(r@ =~= v@.take(i as int));
    }
    assert(v@.take(i as int) =~= v@);
    r
}

/// Every name of a chain's archive fits the archive's name length field: the
/// chainspec's and each key seed's under `keys/`.
pub open spec fn archive_names_fit(chain_id: Seq<char>, seeds: Seq<(Seq<char>, Seq<u8>)>) -> bool {
    &&& name_fits(config_name(chain_id))
    &&& forall|i: int| 0 <= i < seeds.len() ==> name_fits("keys/"@ + #[trigger] seeds[i].0)
}

/// Whether a chain's archive names fit (the requirement of
/// `build_chain_archive`), for callers to test first.
pub fn chain_archive_names_fit(chain_id: &str, seeds: &Vec<(String, Vec<u8>)>) -> (b: bool)
    ensures
        b == archive_names_fit(chain_id@, file_views(*seeds)),
{
    let ghost sv = file_views(*seeds);
    if !entry_name_fits(config_file_name(chain_id).as_str()) {
        return false;
    }
    let mut i: usize = 0;
    while i < seeds.len()
        invariant
            i <= seeds.len(),
            sv == file_views(*seeds),
            forall|j: int| 0 <= j < i ==> name_fits("keys/"@ + #[trigger] sv[j].0),
        decreases seeds.len() - i,
    {
        let name = string_of(&concat(&chars_of("keys/"), &chars_of(seeds[i].0.as_str())));
        assert(sv[i as int].0 == seeds[i as int].0@);
        if !entry_name_fits(name.as_str()) {
            return false;
        }
        i = i + 1;
    }
    true
}

/// The archive of a generated chain.
pub fn build_chain_archive(
    chain_id: &str,
    config: &Vec<u8>,
    spec: &Vec<u8>,
    seeds: &Vec<(String, Vec<u8>)>,
    bin: &Option<Vec<u8>>,
) -> (r: Result<Vec<u8>, String>)
    requires
        archive_names_fit(chain_id@, file_views(*seeds)),
    ensures
        ({
            let files = archive_files(
                chain_id@,
                config@,
                spec@,
                file_views(*seeds),
                match bin {
                    Some(b) => Some(b@),
                    None => None,
                },
            );
            &&& r is Ok <==> zip_run_accepted(files)
            &&& r is Ok ==> names_distinct(files)
            &&& !names_distinct(file_views(*seeds)) ==> r is Err
            &&& r matches Ok(b) ==> b@ == zip_bytes(files)
        }),
{
    let mut files: Vec<(String, Vec<u8>)> = Vec::new();
    files.push((config_file_name(chain_id), copy_bytes(config)));
    files.push((String::from_str("spec.json"), copy_bytes(spec)));
    let ghost head = seq![(config_name(chain_id@), config@), ("spec.json"@, spec@)];
    assert(file_views(files) =~= head);
    let ghost sv = file_views(*seeds);
    let mut i: usize = 0;
    while i < seeds.len()
        invariant
            i <= seeds.len(),
            sv == file_views(*seeds),
            file_views(files) == head + sv.take(i as int).map_values(
                |f: (Seq<char>, Seq<u8>)| ("keys/"@ + f.0, f.1),
            ),
        decreases seeds.len() - i,
    {
        let ghost before = file_views(files);
        let name = string_of(&concat(&chars_of("keys/"), &chars_of(seeds[i].0.as_str())));
        let data = copy_bytes(&seeds[i].1);
        files.push((name, data));
        assert(file_views(files) =~= before.push(("keys/"@ + sv[i as int].0, sv[i as int].1)));
        assert(sv.take(i + 1).map_values(|f: (Seq<char>, Seq<u8>)| ("keys/"@ + f.0, f.1))
            =~= sv.take(i as int).map_values(|f: (Seq<char>, Seq<u8>)| ("keys/"@ + f.0, f.1)).push(
            ("keys/"@ + sv[i as int].0, sv[i as int].1),
        ));
        i = i + 1;
    }
    assert(sv.take(i as int) =~= sv);
    match bin {
        Some(b) => {
            let ghost before = file_views(files);
            files.push((String::from_str("polkajam"), copy_bytes(b)));
            assert(file_views(files) =~= before.push(("polkajam"@, b@)));
        },
        None => {},
    }
    assert(file_views(files) =~= archive_files(
        chain_id@,
        config@,
        spec@,
        sv,
        match bin {
            Some(b) => Some(b@),
            None => None,
        },
    ));
    proof {
        reveal_strlit("spec.json");
        reveal_strlit("polkajam");
        lemma_utf8_len_bounds("spec.json"@);
        lemma_utf8_len_bounds("polkajam"@);
        let fs = file_views(files);
        assert forall|k: int| 0 <= k < files.len() implies name_fits((#[trigger] files[k]).0@) by {
            assert(fs[k].0 == files[k].0@);
            if k >= 2 && k < 2 + sv.len() {
                assert(fs[k].0 == "keys/"@ + sv[k - 2].0);
            }
        }
    }
    let r = zip_files(&files);
    proof {
        if !names_distinct(sv) && r is Ok {
            let (a, b) = choose|a: int, b: int| 0 <= a < b < sv.len() && #[trigger] sv[a].0 == #[trigger] sv[b].0;
            let fs = file_views(files);
            assert(fs[2 + a].0 == "keys/"@ + sv[a].0);
            assert(fs[2 + b].0 == "keys/"@ + sv[b].0);
            assert(fs[2 + a].0 == fs[2 + b].0);
        }
    }
    r
}

} // verus!
