//! What the user has configured, and which archives of games that asks for.

use vstd::prelude::*;

verus! {

#[derive(Debug, Clone)]
pub struct Config {
    /// Chess.com usernames for the user
    chess_com: Vec<String>,
}

impl Default for Config {
    fn default() -> (config: Self)
        ensures
            config.names() == Seq::<String>::empty(),
    {
        Config { chess_com: Vec::new() }
    }
}

impl Config {
    /// The usernames.
    pub closed spec fn names(&self) -> Seq<String> {
        self.chess_com@
    }

    /// A configuration of the usernames `chess_com`.
    pub fn new(chess_com: Vec<String>) -> (config: Self)
        ensures
            config.names() == chess_com@,
    {
        Config { chess_com }
    }

    /// The usernames.
    pub fn chess_com(&self) -> (names: &Vec<String>)
        ensures
            names@ == self.names(),
    {
        &self.chess_com
    }
}

/// The bytes of "/pgn".
pub open spec fn pgn_suffix() -> Seq<u8> {
    seq![47u8, 112u8, 103u8, 110u8]
}

/// Whether `text` ends with `suffix`.
pub open spec fn ends_with(text: Seq<u8>, suffix: Seq<u8>) -> bool {
    text.len() >= suffix.len() && text.subrange(text.len() - suffix.len(), text.len() as int)
        == suffix
}

/// The address of the games of an archive in PGN: the address of the archive
/// itself where it ends with "/pgn", else with "pgn" added behind a slash.
pub open spec fn pgn_address(archive: Seq<u8>) -> Seq<u8> {
    if ends_with(archive, pgn_suffix()) {
        archive
    } else if ends_with(archive, seq![47u8]) {
        archive + pgn_suffix().subrange(1, 4)
    } else {
        archive + pgn_suffix()
    }
}

/// The address of the games of an archive in PGN.
pub fn pgn_archive_url(archive: &[u8]) -> (address: Vec<u8>)
    requires
        archive@.len() + 4 <= usize::MAX,
    ensures
        address@ == pgn_address(archive@),
{
    let n = archive.len();
    let mut address: Vec<u8> = Vec::new();
    let mut i: usize = 0;
    while i < n
        invariant
            i <= n,
            n == archive@.len(),
            address@ == archive@.subrange(0, i as int),
        decreases n - i,
    {
        address.push(archive[i]);
        i += 1;
    }
    assert(address@ == archive@);
    let slash = n >= 1 && archive[n - 1] == 47;
    let pgn = n >= 4 && archive[n - 4] == 47 && archive[n - 3] == 112 && archive[n - 2] == 103
        && archive[n - 1] == 110;
    proof {
        if n >= 4 {
            let tail = archive@.subrange(n - 4, n as int);
            assert(tail[0] == archive@[n - 4] && tail[1] == archive@[n - 3] && tail[2]
                == archive@[n - 2] && tail[3] == archive@[n - 1]);
            assert(pgn ==> tail =~= pgn_suffix());
        }
        if n >= 1 {
            let tail = archive@.subrange(n - 1, n as int);
            assert(tail[0] == archive@[n - 1]);
            assert(slash ==> tail =~= seq![47u8]);
        }
    }
    if pgn {
        return address;
    }
    if !slash {
        address.push(47);
    }
    address.push(112);
    address.push(103);
    address.push(110);
    proof {
        if slash {
            assert(address@ =~= archive@ + pgn_suffix().subrange(1, 4));
        } else {
            assert(address@ =~= archive@ + pgn_suffix());
        }
    }
    address
}

/// The months of the year `y` from `from` up to, not with, `until`.
pub open spec fn months_of(y: int, from: int, until: int) -> Seq<(u16, u8)> {
    Seq::new(
        (if until > from { until - from } else { 0 }) as nat,
        |i: int| (y as u16, (from + i) as u8),
    )
}

/// The months of the years from `y` on that hold games since `month` of
/// `year`, where it is `now_month` of `now_year`: in the year `year` the
/// months from `month` on, in the year `now_year` those up to `now_month`,
/// in the years between all twelve.
pub open spec fn months_from(year: u16, month: u8, now_year: u16, now_month: u8, y: int) -> Seq<
    (u16, u8),
>
    decreases now_year + 1 - y,
{
    if y > now_year {
        Seq::empty()
    } else {
        months_of(
            y,
            if y == year { month as int } else { 1 },
            if y == now_year { now_month + 1 } else { 13 },
        ) + months_from(year, month, now_year, now_month, y + 1)
    }
}

/// The months whose archives hold the games since `month` of `year`, where
/// it is `now_month` of `now_year`, in the order of time.
pub fn archive_months(year: u16, month: u8, now_year: u16, now_month: u8) -> (months: Vec<
    (u16, u8),
>)
    requires
        now_month <= 12,
    ensures
        months@ == months_from(year, month, now_year, now_month, year as int),
{
    let mut months: Vec<(u16, u8)> = Vec::new();
    let mut y: u32 = year as u32;
    let ghost all = months_from(year, month, now_year, now_month, year as int);
    assert(months@ + all == all);
    while y <= now_year as u32
        invariant
            year <= y <= now_year + 1 || y == year,
            now_month <= 12,
            all == months@ + months_from(year, month, now_year, now_month, y as int),
        decreases now_year + 1 - y,
    {
        let start: u8 = if y == year as u32 { month } else { 1 };
        let end: u8 = if y == now_year as u32 { now_month + 1 } else { 13 };
        let ghost before = months@;
        let ghost row = months_of(y as int, start as int, end as int);
        let mut m: u8 = start;
        assert(before + months_of(y as int, start as int, start as int) == before);
        while m < end
            invariant
                start <= m,
                m <= end || m == start,
                end <= 13,
                y <= u16::MAX,
                months@ == before + months_of(y as int, start as int, m as int),
            decreases end - m,
        {
            months.push((y as u16, m));
            assert(months@ == before + months_of(y as int, start as int, m + 1));
            m += 1;
        }
        assert(months_of(y as int, start as int, m as int) == row);
        assert(before + (row + months_from(year, month, now_year, now_month, y + 1)) == (before
            + row) + months_from(year, month, now_year, now_month, y + 1));
        y += 1;
    }
    assert(months@ + Seq::<(u16, u8)>::empty() == months@);
    months
}

} // verus!
