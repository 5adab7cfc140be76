//! Found wallets as they are stored, read back, pushed to the window and
//! exported, and the queries over the stored history.
use vstd::prelude::*;
use crate::text::{lowercased, spec_trim, to_lowercase, trim};

verus! {

/// A wallet record.
pub struct WalletItem {
    pub id: String,
    pub address: String,
    pub private_key: String,
    pub rule_label: String,
    pub attempts: u64,
    pub matched: bool,
    pub matched_parts: Vec<String>,
    pub matched_rules: Vec<String>,
    pub created_at: String,
}

/// The values of one stored row, in column order; the segment and rule
/// lists are JSON arrays of strings.
pub struct WalletRow {
    pub id: String,
    pub address: String,
    pub private_key: String,
    pub rule_label: String,
    pub attempts: u64,
    pub matched: i64,
    pub matched_parts: String,
    pub matched_rules: String,
    pub created_at: String,
}

/// A progress report of a running search.
pub struct ProgressEvent {
    pub status: String,
    pub attempts: u64,
    pub found_count: u32,
    pub target_count: u32,
    pub speed: u64,
    pub latest_address: Option<String>,
}

/// A search over the stored wallets.
pub struct SearchConfig {
    pub keyword: String,
    pub limit: Option<u32>,
    pub matched_only: Option<bool>,
}

/// Which of the four stored queries to run.
#[derive(Clone, Copy, PartialEq, Eq, Structural)]
pub enum QueryKind {
    /// Newest first.
    Recent,
    /// Newest first, filtered on the matched flag.
    RecentByFlag,
    /// Newest first, address, key or label containing the keyword.
    Keyword,
    /// Both filters.
    KeywordByFlag,
}

/// A planned query: its kind, row limit, matched-flag value and LIKE pattern.
pub struct WalletQuery {
    pub kind: QueryKind,
    pub limit: u32,
    pub matched: Option<i64>,
    pub pattern: Option<String>,
}

/// What `serde_json::to_string` writes for a list of strings.
pub uninterp spec fn json_string_array(items: Seq<Seq<char>>) -> Seq<char>;

/// What `serde_json::from_str::<Vec<String>>` reads from a text, if it is
/// a JSON array of strings.
pub uninterp spec fn json_string_array_parse(text: Seq<char>) -> Option<Seq<Seq<char>>>;

/// Calls `serde_json::to_string` on a list of strings. The text is only
/// named; serialising never fails here, since serde_json documents failure
/// only for a failing `Serialize` impl or a map with non-string keys.
#[verifier::external_body]
fn json_list(list: &Vec<String>) -> (r: Result<String, String>)
    ensures
        match r {
            Ok(s) => s@ == json_string_array(list.deep_view()),
            Err(_) => false,
        },
{
    serde_json::to_string(list).map_err(|err| format!("序列化命中规则失败：{err}"))
}

/// Calls `serde_json::from_str::<Vec<String>>`, `None` on an error. The
/// result is only named; a text that `serde_json::to_string` wrote for a list
/// of strings reads back as that list.
#[verifier::external_body]
fn json_parse_list(value: &str) -> (r: Option<Vec<String>>)
    ensures
        match r {
            Some(v) => json_string_array_parse(value@) == Some(v.deep_view()),
            None => json_string_array_parse(value@) is None,
        },
        forall|items: Seq<Seq<char>>|
            value@ == #[trigger] json_string_array(items) ==> match r {
                Some(v) => v.deep_view() == items,
                None => false,
            },
{
    serde_json::from_str::<Vec<String>>(value).ok()
}

/// The list a stored JSON text holds; an empty list for anything that is
/// not a JSON array of strings.
pub fn parse_json_list(value: &str) -> (r: Vec<String>)
    ensures
        r.deep_view() == match json_string_array_parse(value@) {
            Some(items) => items,
            None => Seq::empty(),
        },
        forall|items: Seq<Seq<char>>|
            value@ == #[trigger] json_string_array(items) ==> r.deep_view() == items,
{
    match json_parse_list(value) {
        Some(v) => v,
        None => {
            let v: Vec<String> = Vec::new();
            assert(v.deep_view() =~= Seq::<Seq<char>>::empty());
            v
        },
    }
}

/// The row a found wallet is stored as (always with the matched flag 1).
pub fn wallet_row(wallet: &WalletItem) -> (r: Result<WalletRow, String>)
    ensures
        r matches Ok(row) && row.id@ == wallet.id@ && row.address@ == wallet.address@
            && row.private_key@ == wallet.private_key@ && row.rule_label@ == wallet.rule_label@
            && row.attempts == wallet.attempts && row.matched == 1 && row.matched_parts@
            == json_string_array(wallet.matched_parts.deep_view()) && row.matched_rules@
            == json_string_array(wallet.matched_rules.deep_view()) && row.created_at@
            == wallet.created_at@,
{
    let parts = json_list(&wallet.matched_parts)?;
    let rules = json_list(&wallet.matched_rules)?;
    Ok(
        WalletRow {
            id: wallet.id.clone(),
            address: wallet.address.clone(),
            private_key: wallet.private_key.clone(),
            rule_label: wallet.rule_label.clone(),
            attempts: wallet.attempts,
            matched: 1,
            matched_parts: parts,
            matched_rules: rules,
            created_at: wallet.created_at.clone(),
        },
    )
}

/// The wallet a stored row holds: matched when the flag is 1, and the lists
/// read from their JSON text (empty when it is unreadable).
pub fn wallet_from_row(row: WalletRow) -> (r: WalletItem)
    ensures
        r.id@ == row.id@,
        r.address@ == row.address@,
        r.private_key@ == row.private_key@,
        r.rule_label@ == row.rule_label@,
        r.attempts == row.attempts,
        r.matched == (row.matched == 1),
        r.matched_parts.deep_view() == match json_string_array_parse(row.matched_parts@) {
            Some(items) => items,
            None => Seq::empty(),
        },
        r.matched_rules.deep_view() == match json_string_array_parse(row.matched_rules@) {
            Some(items) => items,
            None => Seq::empty(),
        },
        forall|items: Seq<Seq<char>>|
            row.matched_parts@ == #[trigger] json_string_array(items) ==> r.matched_parts.deep_view()
                == items,
        forall|items: Seq<Seq<char>>|
            row.matched_rules@ == #[trigger] json_string_array(items) ==> r.matched_rules.deep_view()
                == items,
        r.created_at@ == row.created_at@,
{
    let matched_parts = parse_json_list(row.matched_parts.as_str());
    let matched_rules = parse_json_list(row.matched_rules.as_str());
    WalletItem {
        id: row.id,
        address: row.address,
        private_key: row.private_key,
        rule_label: row.rule_label,
        attempts: row.attempts,
        matched: row.matched == 1,
        matched_parts,
        matched_rules,
        created_at: row.created_at,
    }
}

/// The views of two wallets agree.
pub open spec fn same_wallet(a: WalletItem, b: WalletItem) -> bool {
    &&& a.id@ == b.id@
    &&& a.address@ == b.address@
    &&& a.private_key@ == b.private_key@
    &&& a.rule_label@ == b.rule_label@
    &&& a.attempts == b.attempts
    &&& a.matched == b.matched
    &&& a.matched_parts.deep_view() == b.matched_parts.deep_view()
    &&& a.matched_rules.deep_view() == b.matched_rules.deep_view()
    &&& a.created_at@ == b.created_at@
}

/// Writes a found wallet as a row and reads it back: the wallet comes back
/// unchanged.
pub fn stored_round_trip(wallet: &WalletItem) -> (r: WalletItem)
    requires
        wallet.matched,
    ensures
        same_wallet(r, *wallet),
{
    wallet_from_row(wallet_row(wallet).unwrap())
}

/// The positions of the matched wallets, in order.
pub open spec fn matched_positions(flags: Seq<bool>) -> Seq<usize>
    decreases flags.len(),
{
    if flags.len() == 0 {
        Seq::empty()
    } else {
        matched_positions(flags.drop_last()) + if flags.last() {
            seq![(flags.len() - 1) as usize]
        } else {
            Seq::empty()
        }
    }
}

/// The positions of the other wallets, last first.
pub open spec fn unmatched_positions_newest_first(flags: Seq<bool>) -> Seq<usize>
    decreases flags.len(),
{
    if flags.len() == 0 {
        Seq::empty()
    } else {
        (if flags.last() {
            Seq::empty()
        } else {
            seq![(flags.len() - 1) as usize]
        }) + unmatched_positions_newest_first(flags.drop_last())
    }
}

/// The matched flags of a list of wallets.
pub open spec fn flags_of(wallets: Seq<WalletItem>) -> Seq<bool> {
    wallets.map_values(|w: WalletItem| w.matched)
}

/// The most wallets one batch shows besides more matched ones.
pub const BATCH_WINDOW: usize = 40;

/// The wallets a batch shows, by position: every matched wallet in order,
/// then the newest others, as many as fit in a window of 40.
pub open spec fn batch_positions(flags: Seq<bool>) -> Seq<usize> {
    let m = matched_positions(flags);
    let room = if m.len() >= 40 {
        0
    } else {
        40 - m.len()
    };
    let rest = unmatched_positions_newest_first(flags);
    m + rest.take(if rest.len() < room {
        rest.len() as int
    } else {
        room as int
    })
}

/// Positions of the matched wallets in a list.
pub fn matched_indices(wallets: &Vec<WalletItem>) -> (r: Vec<usize>)
    ensures
        r@ == matched_positions(flags_of(wallets@)),
{
    let ghost flags = flags_of(wallets@);
    let mut r: Vec<usize> = Vec::new();
    let mut i: usize = 0;
    while i < wallets.len()
        invariant
            flags == flags_of(wallets@),
            i <= wallets@.len(),
            r@ == matched_positions(flags.take(i as int)),
        decreases wallets.len() - i,
    {
        proof {
            assert(flags.take(i + 1).drop_last() =~= flags.take(i as int));
            assert(flags.take(i + 1).last() == wallets@[i as int].matched);
        }
        if wallets[i].matched {
            r.push(i);
        }
        proof {
            let t = flags.take(i + 1);
            if t.last() {
                assert(r@ =~= matched_positions(t.drop_last()) + seq![(t.len() - 1) as usize]);
            } else {
                assert(r@ =~= matched_positions(t.drop_last()) + Seq::<usize>::empty());
            }
        }
        i = i + 1;
    }
    assert(flags.take(i as int) =~= flags);
    r
}

/// The wallets pushed to the window, by position; `None` for an empty list,
/// which is not pushed at all.
pub fn wallet_batch(wallets: &Vec<WalletItem>) -> (r: Option<Vec<usize>>)
    ensures
        wallets@.len() == 0 ==> r is None,
        wallets@.len() > 0 ==> (r matches Some(v) && v@ == batch_positions(flags_of(wallets@))),
{
    if wallets.len() == 0 {
        return None;
    }
    let ghost flags = flags_of(wallets@);
    let matched = matched_indices(wallets);
    let room = BATCH_WINDOW.saturating_sub(matched.len());
    // the others, newest first
    let mut rest: Vec<usize> = Vec::new();
    let mut i: usize = wallets.len();
    assert(flags.take(i as int) =~= flags);
    assert(rest@ + unmatched_positions_newest_first(flags) =~= unmatched_positions_newest_first(flags));
    while i > 0
        invariant
            flags == flags_of(wallets@),
            i <= wallets@.len(),
            rest@ == unmatched_positions_newest_first(flags).take(rest@.len() as int),
            unmatched_positions_newest_first(flags) == rest@ + unmatched_positions_newest_first(
                flags.take(i as int),
            ),
        decreases i,
    {
        i = i - 1;
        proof {
            let t = flags.take(i + 1);
            assert(t.drop_last() =~= flags.take(i as int));
            assert(t.last() == wallets@[i as int].matched);
        }
        if !wallets[i].matched {
            rest.push(i);
        }
        proof {
            let t = flags.take(i + 1);
            if t.last() {
                assert(unmatched_positions_newest_first(t) =~= unmatched_positions_newest_first(
                    flags.take(i as int),
                ));
            } else {
                assert(unmatched_positions_newest_first(t) =~= seq![i as usize]
                    + unmatched_positions_newest_first(flags.take(i as int)));
            }
        }
        assert(unmatched_positions_newest_first(flags) =~= rest@ + unmatched_positions_newest_first(
            flags.take(i as int),
        ));
    }
    assert(flags.take(0) =~= Seq::<bool>::empty());
    assert(rest@ =~= unmatched_positions_newest_first(flags));
    let mut out = matched;
    let mut k: usize = 0;
    while k < rest.len() && k < room
        invariant
            k <= rest@.len(),
            k <= room,
            out@ == matched_positions(flags) + rest@.take(k as int),
        decreases rest.len() - k,
    {
        out.push(rest[k]);
        assert(rest@.take(k + 1) =~= rest@.take(k as int).push(rest@[k as int]));
        k = k + 1;
    }
    proof {
        let m = matched_positions(flags);
        let want = if rest@.len() < room as int {
            rest@.len() as int
        } else {
            room as int
        };
        assert(matched@.len() == m.len());
        assert(k == want);
    }
    Some(out)
}

proof fn lemma_matched_positions_complete(flags: Seq<bool>)
    requires
        flags.len() <= usize::MAX,
    ensures
        forall|i: int| 0 <= i < flags.len() && #[trigger] flags[i] ==> matched_positions(flags).contains(
            i as usize,
        ),
        forall|k: int|
            0 <= k < matched_positions(flags).len() ==> flags[#[trigger] matched_positions(flags)[k] as int]
                && matched_positions(flags)[k] < flags.len(),
    decreases flags.len(),
{
    if flags.len() > 0 {
        let prev = flags.drop_last();
        lemma_matched_positions_complete(prev);
        let mp = matched_positions(prev);
        let all = matched_positions(flags);
        assert forall|i: int| 0 <= i < flags.len() && #[trigger] flags[i] implies all.contains(i as usize) by {
            if i < flags.len() - 1 {
                assert(prev[i] == flags[i]);
                let k = choose|k: int| 0 <= k < mp.len() && mp[k] == i as usize;
                assert(all[k] == mp[k]);
            } else {
                assert(all[mp.len() as int] == i as usize);
            }
        }
        assert forall|k: int| 0 <= k < all.len() implies flags[#[trigger] all[k] as int] && all[k] < flags.len() by {
            if k < mp.len() {
                assert(all[k] == mp[k]);
                assert(prev[mp[k] as int] == flags[mp[k] as int]);
            }
        }
    }
}

/// A batch holds every matched wallet, and no more than the matched ones
/// or 40 wallets, whichever is more.
pub proof fn lemma_batch_keeps_matched(flags: Seq<bool>)
    requires
        flags.len() <= usize::MAX,
    ensures
        forall|i: int| 0 <= i < flags.len() && #[trigger] flags[i] ==> batch_positions(flags).contains(
            i as usize,
        ),
        batch_positions(flags).len() <= if matched_positions(flags).len() > 40 {
            matched_positions(flags).len()
        } else {
            40
        },
{
    lemma_matched_positions_complete(flags);
    let m = matched_positions(flags);
    let b = batch_positions(flags);
    assert forall|i: int| 0 <= i < flags.len() && #[trigger] flags[i] implies b.contains(i as usize) by {
        let k = choose|k: int| 0 <= k < m.len() && m[k] == i as usize;
        assert(b[k] == m[k]);
    }
}

/// Speed in attempts per second, counting at least one second.
pub open spec fn spec_speed(attempts: u64, elapsed_secs: u64) -> u64 {
    if elapsed_secs == 0 {
        attempts
    } else {
        (attempts / elapsed_secs) as u64
    }
}

/// The speed is attempts per whole second of the elapsed time: the
/// attempts themselves before the first second, and after it the largest
/// count whose product with the seconds does not pass the attempts.
pub proof fn law_speed(attempts: u64, elapsed_secs: u64)
    ensures
        elapsed_secs == 0 ==> spec_speed(attempts, elapsed_secs) == attempts,
        elapsed_secs >= 1 ==> spec_speed(attempts, elapsed_secs) * elapsed_secs <= attempts < (
        spec_speed(attempts, elapsed_secs) + 1) * elapsed_secs,
{
    if elapsed_secs >= 1 {
        let a = attempts as int;
        let e = elapsed_secs as int;
        let q = a / e;
        assert(0 <= q <= a) by (nonlinear_arith)
            requires
                a >= 0,
                e >= 1,
                q == a / e,
        ;
        assert(spec_speed(attempts, elapsed_secs) == q);
        assert(q * e <= a < (q + 1) * e) by (nonlinear_arith)
            requires
                a >= 0,
                e >= 1,
                q == a / e,
        ;
    }
}

/// The progress report after `elapsed_secs` seconds.
pub fn progress_event(
    status: &str,
    attempts: u64,
    found_count: u32,
    target_count: u32,
    elapsed_secs: u64,
    latest_address: Option<String>,
) -> (r: ProgressEvent)
    ensures
        r.status@ == status@,
        r.attempts == attempts,
        r.found_count == found_count,
        r.target_count == target_count,
        r.speed == spec_speed(attempts, elapsed_secs),
        elapsed_secs == 0 ==> r.speed == attempts,
        elapsed_secs >= 1 ==> r.speed * elapsed_secs <= attempts < (r.speed + 1) * elapsed_secs,
        r.latest_address == latest_address,
{
    proof {
        law_speed(attempts, elapsed_secs);
    }
    let seconds = if elapsed_secs < 1 {
        1
    } else {
        elapsed_secs
    };
    ProgressEvent {
        status: String::from_str(status),
        attempts,
        found_count,
        target_count,
        speed: attempts / seconds,
        latest_address,
    }
}

/// The largest row limit of a query.
pub const MAX_QUERY_LIMIT: u32 = 2000;

/// The row limit of a query: the asked limit clamped to 1..=2000.
pub open spec fn clamped_limit(limit: u32) -> u32 {
    if limit < 1 {
        1
    } else if limit > 2000 {
        2000
    } else {
        limit
    }
}

/// The query for a keyword (searched lower-cased in address, key and
/// label), a row limit and an optional matched flag.
pub fn plan_query(keyword: &str, limit: u32, matched_only: Option<bool>) -> (r: WalletQuery)
    ensures
        r.limit == clamped_limit(limit),
        r.matched == match matched_only {
            Some(b) => Some(if b {
                1i64
            } else {
                0i64
            }),
            None => None,
        },
        keyword@.len() == 0 ==> r.pattern is None && r.kind == (if matched_only is Some {
            QueryKind::RecentByFlag
        } else {
            QueryKind::Recent
        }),
        keyword@.len() > 0 ==> (r.pattern matches Some(p) && p@ == "%"@ + lowercased(
            keyword@,
        ) + "%"@) && r.kind == (if matched_only is Some {
            QueryKind::KeywordByFlag
        } else {
            QueryKind::Keyword
        }),
{
    let limit = if limit < 1 {
        1
    } else if limit > MAX_QUERY_LIMIT {
        MAX_QUERY_LIMIT
    } else {
        limit
    };
    let keyword = to_lowercase(keyword);
    let matched: Option<i64> = match matched_only {
        Some(b) => Some(if b {
            1
        } else {
            0
        }),
        None => None,
    };
    if keyword.as_str().is_empty() {
        let kind = if matched.is_some() {
            QueryKind::RecentByFlag
        } else {
            QueryKind::Recent
        };
        WalletQuery { kind, limit, matched, pattern: None }
    } else {
        let pattern = String::from_str("%").concat(keyword.as_str()).concat("%");
        let kind = if matched.is_some() {
            QueryKind::KeywordByFlag
        } else {
            QueryKind::Keyword
        };
        WalletQuery { kind, limit, matched, pattern: Some(pattern) }
    }
}

/// The row limit used when none is given.
pub const DEFAULT_QUERY_LIMIT: u32 = 500;

/// The query listing the newest wallets.
pub fn list_query() -> (r: WalletQuery)
    ensures
        r.kind == QueryKind::Recent,
        r.limit == DEFAULT_QUERY_LIMIT,
        r.matched is None,
        r.pattern is None,
{
    proof {
        reveal_strlit("");
    }
    plan_query("", DEFAULT_QUERY_LIMIT, None)
}

/// The query of a search: the keyword trimmed, the limit 500 unless given.
pub fn search_query(config: &SearchConfig) -> (r: WalletQuery)
    ensures
        r.limit == clamped_limit(
            match config.limit {
                Some(l) => l,
                None => DEFAULT_QUERY_LIMIT,
            },
        ),
        r.matched == match config.matched_only {
            Some(b) => Some(if b {
                1i64
            } else {
                0i64
            }),
            None => None,
        },
        spec_trim(config.keyword@).len() == 0 ==> r.pattern is None && r.kind == (
        if config.matched_only is Some {
            QueryKind::RecentByFlag
        } else {
            QueryKind::Recent
        }),
        spec_trim(config.keyword@).len() > 0 ==> (r.pattern matches Some(p) && p@ == "%"@
            + lowercased(spec_trim(config.keyword@)) + "%"@) && r.kind == (
        if config.matched_only is Some {
            QueryKind::KeywordByFlag
        } else {
            QueryKind::Keyword
        }),
{
    let keyword = trim(config.keyword.as_str());
    let limit = match config.limit {
        Some(l) => l,
        None => DEFAULT_QUERY_LIMIT,
    };
    plan_query(keyword, limit, config.matched_only)
}

/// The export text: one "<address>----<private key>" line per row.
pub open spec fn export_text(rows: Seq<(Seq<char>, Seq<char>)>) -> Seq<char>
    decreases rows.len(),
{
    if rows.len() == 0 {
        Seq::empty()
    } else {
        export_text(rows.drop_last()) + rows.last().0 + "----"@ + rows.last().1 + "\n"@
    }
}

/// One row exports as its address, "----", its whole private key and a
/// line break.
pub proof fn law_export_single_row(addr: Seq<char>, key: Seq<char>)
    ensures
        export_text(seq![(addr, key)]) == addr + "----"@ + key + "\n"@,
{
    let rows = seq![(addr, key)];
    assert(rows.drop_last() =~= Seq::<(Seq<char>, Seq<char>)>::empty());
    assert(export_text(rows.drop_last()) =~= Seq::<char>::empty());
    assert(Seq::<char>::empty() + addr =~= addr);
}

/// Exporting two lists of rows one after the other gives the export of the
/// joined list: every row becomes its own line, in order.
pub proof fn law_export_concat(a: Seq<(Seq<char>, Seq<char>)>, b: Seq<(Seq<char>, Seq<char>)>)
    ensures
        export_text(a + b) == export_text(a) + export_text(b),
    decreases b.len(),
{
    if b.len() == 0 {
        assert(a + b =~= a);
        assert(export_text(a) + Seq::<char>::empty() =~= export_text(a));
    } else {
        law_export_concat(a, b.drop_last());
        assert((a + b).drop_last() =~= a + b.drop_last());
        assert((a + b).last() == b.last());
        let line = b.last().0 + "----"@ + b.last().1 + "\n"@;
        assert(export_text(a + b) =~= export_text(a + b.drop_last()) + b.last().0 + "----"@
            + b.last().1 + "\n"@);
        assert(export_text(a + b.drop_last()) + b.last().0 + "----"@ + b.last().1 + "\n"@
            =~= export_text(a + b.drop_last()) + line);
        assert(export_text(b) =~= export_text(b.drop_last()) + b.last().0 + "----"@ + b.last().1
            + "\n"@);
        assert(export_text(b.drop_last()) + b.last().0 + "----"@ + b.last().1 + "\n"@
            =~= export_text(b.drop_last()) + line);
        assert(export_text(a) + export_text(b.drop_last()) + line =~= export_text(a) + (export_text(
            b.drop_last(),
        ) + line));
    }
}

/// The export text of the stored (address, private key) rows.
pub fn export_content(rows: &Vec<(String, String)>) -> (r: String)
    ensures
        r@ == export_text(rows.deep_view()),
{
    let ghost all = rows.deep_view();
    let mut content = String::new();
    let mut i: usize = 0;
    while i < rows.len()
        invariant
            all == rows.deep_view(),
            i <= rows@.len(),
            content@ == export_text(all.take(i as int)),
        decreases rows.len() - i,
    {
        proof {
            assert(all.take(i + 1).drop_last() =~= all.take(i as int));
            assert(all.take(i + 1).last() == (rows@[i as int].0@, rows@[i as int].1@));
        }
        let (addr, key) = &rows[i];
        content = content.concat(addr.as_str()).concat("----").concat(key.as_str()).concat("\n");
        i = i + 1;
    }
    assert(all.take(i as int) =~= all);
    content
}

} // verus!
