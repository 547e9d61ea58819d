use vstd::prelude::*;

use crate::text::{decimal, lemma_decimal_injective, lemma_decimal_len, push_char, push_decimal};
use crate::zone::{lemma_iter_single_decomposes, raw_bits, singles, zone_name, zone_text, LogZone};

verus! {

/// `s` without the characters `c` at its end.
pub open spec fn trim_trailing(s: Seq<char>, c: char) -> Seq<char>
    decreases s.len(),
{
    if s.len() > 0 && s.last() == c {
        trim_trailing(s.drop_last(), c)
    } else {
        s
    }
}

/// One of the eight predefined one-bit zones.
pub open spec fn is_predefined(x: u32) -> bool {
    x == 1 || x == 2 || x == 4 || x == 8 || x == 16 || x == 32 || x == 64 || x == 128
}

/// The zone's part of a log file name: the name of a predefined zone, or
/// `CUSTOM` followed by the zone's bits in decimal (`CUSTOM256` for bit 8),
/// so that each zone has a name of its own.
pub open spec fn file_label(x: u32) -> Seq<char> {
    if is_predefined(x) {
        zone_name(x)
    } else {
        "CUSTOM"@ + decimal(x as nat)
    }
}

/// The file that the zone `zone` writes to in `dir`:
/// `<dir><sep><LABEL>_<datetime>.log`, with the `/` that end `dir` left out.
pub open spec fn log_path_text(dir: Seq<char>, sep: char, zone: u32, datetime: Seq<char>) -> Seq<
    char,
> {
    trim_trailing(dir, '/') + seq![sep] + file_label(zone) + "_"@ + datetime + ".log"@
}

/// A line as it is shown and written: `[<zone>|<level>] <msg>`.
pub open spec fn line_text(zone: u32, level: u8, msg: Seq<char>) -> Seq<char> {
    "["@ + zone_text(zone) + "|"@ + decimal(level as nat) + "] "@ + msg
}

/// `files` pairs each zone of `zones` with the path of its file in `dir`.
pub open spec fn planned(
    files: Seq<(u32, String)>,
    zones: Seq<u32>,
    dir: Seq<char>,
    sep: char,
    datetime: Seq<char>,
) -> bool {
    &&& files.len() == zones.len()
    &&& forall|k: int|
        0 <= k < files.len() ==> #[trigger] files[k].0 == zones[k] && files[k].1@
            == log_path_text(dir, sep, files[k].0, datetime)
}

/// The separator of path components of the platform (`std::path::MAIN_SEPARATOR`),
/// `/` or `\`; which of the two is not stated.
#[verifier::external_body]
fn main_separator() -> (c: char)
    ensures
        c == '/' || c == '\\',
{
    std::path::MAIN_SEPARATOR
}

/// The length of `dir` once the `/` at its end are left out.
fn trimmed_len(dir: &str) -> (k: usize)
    ensures
        k <= dir@.len(),
        dir@.subrange(0, k as int) == trim_trailing(dir@, '/'),
{
    let mut k = dir.unicode_len();
    assert(dir@.subrange(0, k as int) =~= dir@);
    loop
        invariant
            k <= dir@.len(),
            trim_trailing(dir@.subrange(0, k as int), '/') == trim_trailing(dir@, '/'),
        ensures
            k <= dir@.len(),
            dir@.subrange(0, k as int) == trim_trailing(dir@, '/'),
        decreases k,
    {
        if k == 0 {
            break;
        }
        let c = dir.get_char(k - 1);
        if c != '/' {
            break;
        }
        assert(dir@.subrange(0, k as int).drop_last() =~= dir@.subrange(0, k - 1));
        k = k - 1;
    }
    k
}

/// The zone's part of a log file name (see `file_label`).
pub fn file_label_of(zone: LogZone) -> (r: String)
    ensures
        r@ == file_label(zone.0),
        zone_name(zone.0) != "CUSTOM"@ ==> r@ == zone_name(zone.0),
        zone_name(zone.0) == "CUSTOM"@ ==> r@ == "CUSTOM"@ + decimal(zone.0 as nat),
{
    proof {
        lemma_file_label_is_name(zone.0);
    }
    let x = zone.0;
    if x == 1 || x == 2 || x == 4 || x == 8 || x == 16 || x == 32 || x == 64 || x == 128 {
        String::from_str(zone.name())
    } else {
        let mut r = String::from_str("CUSTOM");
        push_decimal(&mut r, x as u64);
        r
    }
}

/// The path of the log file of `zone` in `dir` for `datetime`, with `sep`
/// between the directory and the file name.
pub fn log_file_path(dir: &str, zone: LogZone, datetime: &str, sep: char) -> (r: String)
    ensures
        r@ == log_path_text(dir@, sep, zone.0, datetime@),
{
    let k = trimmed_len(dir);
    let mut r = String::from_str(dir.substring_char(0, k));
    push_char(&mut r, sep);
    let label = file_label_of(zone);
    r.append(label.as_str());
    r.append("_");
    r.append(datetime);
    r.append(".log");
    r
}

/// The files to open for `zones` in `dir`: one per one-bit zone of `zones`,
/// lowest bit first, each with its zone's bits and the path of its file, a
/// new one for every call (the datetime is in its name). The separator is
/// the platform's.
pub fn files_to_open(zones: LogZone, dir: &str, datetime: &str) -> (r: Vec<(u32, String)>)
    ensures
        exists|sep: char|
            (sep == '/' || sep == '\\') && #[trigger] planned(
                r@,
                singles(zones.0, 32),
                dir@,
                sep,
                datetime@,
            ),
{
    let sep = main_separator();
    plan_files(zones, dir, datetime, sep)
}

/// The files for `zones` in `dir`, with `sep` between the directory and the
/// file name: one per one-bit zone of `zones`, lowest bit first, each with
/// its zone's bits and the path of its file.
pub fn plan_files(zones: LogZone, dir: &str, datetime: &str, sep: char) -> (r: Vec<(u32, String)>)
    ensures
        planned(r@, singles(zones.0, 32), dir@, sep, datetime@),
{
    let all = zones.iter_single();
    let ghost want = singles(zones.0, 32);
    let mut r: Vec<(u32, String)> = Vec::new();
    let mut i: usize = 0;
    while i < all.len()
        invariant
            i <= all@.len(),
            raw_bits(all@) == want,
            planned(r@, want.take(i as int), dir@, sep, datetime@),
        decreases all@.len() - i,
    {
        let single = all[i];
        assert(want.take(i + 1) =~= want.take(i as int).push(single.0));
        let path = log_file_path(dir, single, datetime, sep);
        r.push((single.0, path));
        i = i + 1;
    }
    assert(want.take(all@.len() as int) =~= want);
    r
}

/// Different zones get different log files (for the same directory,
/// separator and datetime).
pub proof fn lemma_paths_distinct(dir: Seq<char>, sep: char, a: u32, b: u32, datetime: Seq<char>)
    requires
        a != b,
    ensures
        log_path_text(dir, sep, a, datetime) != log_path_text(dir, sep, b, datetime),
{
    lemma_file_label_injective(a, b);
    let p = trim_trailing(dir, '/') + seq![sep];
    let q = "_"@ + datetime + ".log"@;
    let la = file_label(a);
    let lb = file_label(b);
    assert(log_path_text(dir, sep, a, datetime) =~= p + la + q);
    assert(log_path_text(dir, sep, b, datetime) =~= p + lb + q);
    if p + la + q == p + lb + q {
        assert(la.len() == lb.len());
        assert forall|k: int| 0 <= k < la.len() implies la[k] == lb[k] by {
            assert((p + la + q)[p.len() + k] == la[k]);
            assert((p + lb + q)[p.len() + k] == lb[k]);
        }
        assert(la =~= lb);
    }
}

/// The files of one plan are all different.
pub proof fn lemma_plan_paths_distinct(
    files: Seq<(u32, String)>,
    zones: LogZone,
    dir: Seq<char>,
    sep: char,
    datetime: Seq<char>,
)
    requires
        planned(files, singles(zones.0, 32), dir, sep, datetime),
    ensures
        forall|a: int, b: int|
            0 <= a < b < files.len() ==> #[trigger] files[a].1@ != #[trigger] files[b].1@,
{
    lemma_iter_single_decomposes(zones);
    assert forall|a: int, b: int| 0 <= a < b < files.len() implies #[trigger] files[a].1@
        != #[trigger] files[b].1@ by {
        assert(files[a].0 == singles(zones.0, 32)[a]);
        assert(files[b].0 == singles(zones.0, 32)[b]);
        lemma_paths_distinct(dir, sep, files[a].0, files[b].0, datetime);
    }
}

/// A zone's file is named by the zone's own name (what `name` gives), so
/// `CHUNK` for the chunk zone; only a zone whose name is `CUSTOM` has its
/// bits added in decimal, as in `CUSTOM256`.
pub proof fn lemma_file_label_is_name(x: u32)
    ensures
        zone_name(x) != "CUSTOM"@ ==> file_label(x) == zone_name(x),
        zone_name(x) == "CUSTOM"@ ==> file_label(x) == "CUSTOM"@ + decimal(x as nat),
        is_predefined(x) == (zone_name(x) != "CUSTOM"@),
{
    reveal_strlit("BASIC");
    reveal_strlit("RENDER");
    reveal_strlit("MATRIX");
    reveal_strlit("SHADER");
    reveal_strlit("CHUNK");
    reveal_strlit("PHYSICS");
    reveal_strlit("AUDIO");
    reveal_strlit("NET");
    reveal_strlit("CUSTOM");
    if is_predefined(x) {
        assert(zone_name(x).len() != 6 || zone_name(x)[0] != 'C');
    }
}

/// Different zones have different file labels.
pub proof fn lemma_file_label_injective(a: u32, b: u32)
    requires
        a != b,
    ensures
        file_label(a) != file_label(b),
{
    reveal_strlit("BASIC");
    reveal_strlit("RENDER");
    reveal_strlit("MATRIX");
    reveal_strlit("SHADER");
    reveal_strlit("CHUNK");
    reveal_strlit("PHYSICS");
    reveal_strlit("AUDIO");
    reveal_strlit("NET");
    reveal_strlit("CUSTOM");
    lemma_decimal_len(a as nat);
    lemma_decimal_len(b as nat);
    let la = file_label(a);
    let lb = file_label(b);
    if is_predefined(a) && is_predefined(b) {
        assert(la[0] != lb[0] || la.len() != lb.len());
    } else if is_predefined(a) {
        assert(lb.len() >= 7 && lb[0] == 'C' && lb[1] == 'U');
        assert(la.len() < 7 || la[0] != 'C' || la[1] != 'U');
    } else if is_predefined(b) {
        assert(la.len() >= 7 && la[0] == 'C' && la[1] == 'U');
        assert(lb.len() < 7 || lb[0] != 'C' || lb[1] != 'U');
    } else {
        if la == lb {
            let da = decimal(a as nat);
            let db = decimal(b as nat);
            assert(la == "CUSTOM"@ + da);
            assert(lb == "CUSTOM"@ + db);
            assert("CUSTOM"@.len() == 6);
            assert(da.len() == db.len());
            assert forall|k: int| 0 <= k < da.len() implies da[k] == db[k] by {
                assert(la[6 + k] == da[k]);
                assert(lb[6 + k] == db[k]);
            }
            assert(da =~= db);
            lemma_decimal_injective(a as nat, b as nat);
        }
    }
}

/// The line for a message of `zone` at `level`: `[<zone>|<level>] <msg>`.
pub fn format_line(zone: LogZone, level: u8, msg: &str) -> (r: String)
    ensures
        r@ == line_text(zone.0, level, msg@),
{
    let mut r = String::from_str("[");
    let z = zone.to_debug_string();
    r.append(z.as_str());
    r.append("|");
    push_decimal(&mut r, level as u64);
    r.append("] ");
    r.append(msg);
    r
}

} // verus!
