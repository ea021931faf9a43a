//! The listing requests a search sends: the delimited listing of a site's
//! occupied directories and the listing of one directory's recent chunks.

use vstd::prelude::*;
use vstd::string::StringExecFns;
use crate::listing::{
    decimal_value, is_digit, numeral_digits, opt_text, spec_volume_of_prefix,
};
use crate::time::NANOS_PER_SECOND;

verus! {

/// The most keys one chunk listing asks for.
pub const LIST_LIMIT: usize = 1000;

/// The character of decimal digit `d`.
pub open spec fn digit_char(d: nat) -> char {
    ('0' as int + d) as char
}

/// The decimal numeral of `n`, without leading zeros.
pub open spec fn decimal_text(n: nat) -> Seq<char>
    decreases n,
{
    if n < 10 {
        seq![digit_char(n)]
    } else {
        decimal_text(n / 10).push(digit_char(n % 10))
    }
}

/// The one-character numeral of a digit.
fn digit_str(d: usize) -> (r: &'static str)
    requires
        d < 10,
    ensures
        r@ == seq![digit_char(d as nat)],
{
    if d == 0 {
        proof { reveal_strlit("0"); }
        "0"
    } else if d == 1 {
        proof { reveal_strlit("1"); }
        "1"
    } else if d == 2 {
        proof { reveal_strlit("2"); }
        "2"
    } else if d == 3 {
        proof { reveal_strlit("3"); }
        "3"
    } else if d == 4 {
        proof { reveal_strlit("4"); }
        "4"
    } else if d == 5 {
        proof { reveal_strlit("5"); }
        "5"
    } else if d == 6 {
        proof { reveal_strlit("6"); }
        "6"
    } else if d == 7 {
        proof { reveal_strlit("7"); }
        "7"
    } else if d == 8 {
        proof { reveal_strlit("8"); }
        "8"
    } else {
        proof { reveal_strlit("9"); }
        "9"
    }
}

/// The decimal numeral of `n`.
pub fn decimal(n: usize) -> (r: String)
    ensures
        r@ == decimal_text(n as nat),
    decreases n,
{
    if n < 10 {
        digit_str(n).to_owned()
    } else {
        decimal(n / 10).concat(digit_str(n % 10))
    }
}

/// The request that lists the occupied volume directories of `site`.
pub open spec fn spec_volumes_url(site: Seq<char>) -> Seq<char> {
    "https://unidata-nexrad-level2-chunks.s3.amazonaws.com?list-type=2&prefix="@ + site
        + "/&delimiter=/&max-keys=1000"@
}

/// The request that lists the occupied volume directories of `site`, rolled
/// up to one `CommonPrefixes` item per directory.
pub fn volumes_url(site: &str) -> (r: String)
    ensures
        r@ == spec_volumes_url(site@),
{
    "https://unidata-nexrad-level2-chunks.s3.amazonaws.com?list-type=2&prefix=".to_owned().concat(
        site,
    ).concat("/&delimiter=/&max-keys=1000")
}

/// `t` as whole seconds since the epoch, rounded down, and the nanoseconds
/// past that second; `None` when the seconds do not fit an `i64`.
pub open spec fn spec_split_instant(t: int) -> Option<(i64, u32)> {
    let s = t / (NANOS_PER_SECOND as int);
    if i64::MIN <= s <= i64::MAX {
        Some((s as i64, (t % (NANOS_PER_SECOND as int)) as u32))
    } else {
        None
    }
}

/// Splits an instant into whole seconds, rounded down, and nanoseconds.
pub fn split_instant(t: i128) -> (r: Option<(i64, u32)>)
    ensures
        r == spec_split_instant(t as int),
{
    let (s, n): (i128, i128) = if t >= 0 {
        (t / NANOS_PER_SECOND, t % NANOS_PER_SECOND)
    } else {
        let p: i128 = -(t + 1);
        let q: i128 = p / NANOS_PER_SECOND;
        let r: i128 = p % NANOS_PER_SECOND;
        proof {
            vstd::arithmetic::div_mod::lemma_fundamental_div_mod(p as int, NANOS_PER_SECOND as int);
            vstd::arithmetic::div_mod::lemma_fundamental_div_mod_converse(
                t as int,
                NANOS_PER_SECOND as int,
                -(q + 1),
                NANOS_PER_SECOND - 1 - r,
            );
        }
        (-(q + 1), NANOS_PER_SECOND - 1 - r)
    };
    if s < i64::MIN as i128 || s > i64::MAX as i128 {
        None
    } else {
        Some((s as i64, n as u32))
    }
}

/// How chrono's `DateTime::from_timestamp` followed by formatting with
/// `%Y%m%d-%H%M%S` writes an instant given as seconds and nanoseconds, or
/// `None` where chrono cannot represent it.
pub uninterp spec fn chrono_listing_stamp(seconds: i64, nanos: u32) -> Option<Seq<char>>;

/// Calls chrono's `DateTime::from_timestamp` and formats the result as
/// `%Y%m%d-%H%M%S`, the date and time prefix of chunk names. The text is a
/// function of the arguments, named `chrono_listing_stamp`; the calendar
/// arithmetic is not stated.
#[verifier::external_body]
fn listing_stamp(seconds: i64, nanos: u32) -> (r: Option<String>)
    ensures
        opt_text(r) == chrono_listing_stamp(seconds, nanos),
{
    let time = chrono::DateTime::from_timestamp(seconds, nanos)?;
    Some(time.format("%Y%m%d-%H%M%S").to_string())
}

/// The key prefix of volume directory `volume` of `site`.
pub open spec fn directory_prefix(site: Seq<char>, volume: usize) -> Seq<char> {
    site + "/"@ + decimal_text(volume as nat) + "/"@
}

/// The request that lists the chunks of a directory named after the stamp
/// text `stamp`, at most `LIST_LIMIT` of them.
pub open spec fn spec_chunks_url(site: Seq<char>, volume: usize, stamp: Seq<char>) -> Seq<char> {
    "https://unidata-nexrad-level2-chunks.s3.amazonaws.com?list-type=2&prefix="@
        + directory_prefix(site, volume) + "&start-after="@ + directory_prefix(site, volume)
        + stamp + "&max-keys="@ + decimal_text(LIST_LIMIT as nat)
}

/// The request that lists the chunks of `volume` of `site` whose names sort
/// after the instant `after`; `None` when chrono cannot write that instant.
pub fn chunks_url(site: &str, volume: usize, after: i128) -> (r: Option<String>)
    ensures
        match spec_split_instant(after as int) {
            None => r is None,
            Some((s, n)) => match chrono_listing_stamp(s, n) {
                None => r is None,
                Some(stamp) => r matches Some(u) && u@ == spec_chunks_url(site@, volume, stamp),
            },
        },
{
    let (seconds, nanos) = match split_instant(after) {
        None => {
            return None;
        },
        Some(parts) => parts,
    };
    let stamp = match listing_stamp(seconds, nanos) {
        None => {
            return None;
        },
        Some(text) => text,
    };
    Some(chunks_url_after_stamp(site, volume, stamp.as_str()))
}

/// The request that lists the chunks of `volume` of `site` whose names sort
/// after the stamp text `stamp`.
pub fn chunks_url_after_stamp(site: &str, volume: usize, stamp: &str) -> (r: String)
    ensures
        r@ == spec_chunks_url(site@, volume, stamp@),
{
    let number = decimal(volume);
    let limit = decimal(LIST_LIMIT);
    let prefix = site.to_owned().concat("/").concat(number.as_str()).concat("/");
    let url = "https://unidata-nexrad-level2-chunks.s3.amazonaws.com?list-type=2&prefix=".to_owned().concat(
        prefix.as_str(),
    ).concat("&start-after=").concat(prefix.as_str()).concat(stamp).concat("&max-keys=").concat(
        limit.as_str(),
    );
    proof {
        assert(prefix@ == directory_prefix(site@, volume));
        assert(url@ =~= spec_chunks_url(site@, volume, stamp@));
    }
    url
}

/// Splitting the instant of a timestamp gives the timestamp back: `moment`
/// and `split_instant` undo each other.
pub proof fn lemma_split_undoes_moment(seconds: i64, nanos: u32)
    requires
        nanos < NANOS_PER_SECOND,
    ensures
        spec_split_instant(crate::time::spec_moment(seconds, nanos)) == Some((seconds, nanos)),
{
    vstd::arithmetic::div_mod::lemma_fundamental_div_mod_converse(
        crate::time::spec_moment(seconds, nanos),
        NANOS_PER_SECOND as int,
        seconds as int,
        nanos as int,
    );
}


/// A decimal numeral is a nonempty string of digits whose value is `n`.
pub proof fn lemma_decimal_text_reads_back(n: nat)
    ensures
        decimal_text(n).len() > 0,
        forall|i: int| 0 <= i < decimal_text(n).len() ==> is_digit(#[trigger] decimal_text(n)[i]),
        decimal_value(decimal_text(n)) == n,
    decreases n,
{
    if n < 10 {
        assert(seq![digit_char(n)].drop_last() =~= Seq::<char>::empty());
        assert(digit_char(n) as int == '0' as int + n);
        assert(decimal_value(Seq::<char>::empty()) == 0);
    } else {
        lemma_decimal_text_reads_back(n / 10);
        let t = decimal_text(n / 10);
        assert(digit_char(n % 10) as int == '0' as int + n % 10);
        vstd::arithmetic::div_mod::lemma_fundamental_div_mod(n as int, 10);
        assert(decimal_text(n).drop_last() =~= t);
        assert(decimal_text(n) == t.push(digit_char(n % 10)));
        assert forall|i: int| 0 <= i < decimal_text(n).len() implies is_digit(
            #[trigger] decimal_text(n)[i],
        ) by {
            if i < t.len() {
                assert(decimal_text(n)[i] == t[i]);
            }
        }
    }
}

/// The directory prefix a chunk request names reads back, through the
/// listing reader, as the same volume number.
pub proof fn lemma_directory_prefix_reads_back(site: Seq<char>, volume: usize)
    requires
        1 <= volume <= 999,
    ensures
        spec_volume_of_prefix(directory_prefix(site, volume), site) == Some(volume),
{
    reveal_strlit("/");
    lemma_decimal_text_reads_back(volume as nat);
    let d = decimal_text(volume as nat);
    let p = directory_prefix(site, volume);
    let n = site.len() as int;
    assert(p =~= site + seq!['/'] + d + seq!['/']);
    assert(p.take(n) =~= site);
    assert(p[n] == '/');
    assert(p.subrange(n + 1, p.len() - 1) =~= d);
    assert(is_digit(d[0]));
    assert(numeral_digits(d) == d);
}

} // verus!
