use vstd::prelude::*;
use vstd::slice::{slice_index_get, slice_to_vec};

verus! {

/// The digits of `n` in decimal, most significant first.
pub open spec fn dec_digits(n: nat) -> Seq<u8>
    decreases n,
{
    if n < 10 {
        seq![(48 + n) as u8]
    } else {
        dec_digits(n / 10) + seq![(48 + n % 10) as u8]
    }
}

/// The name of the segment created at time `ts`: `wal_` and the decimal
/// seconds.
pub open spec fn spec_segment_name(ts: i64) -> Seq<u8> {
    seq![119u8, 97u8, 108u8, 95u8] + dec_digits(ts as nat)
}

/// Reads an unsigned decimal written after digits already worth `acc`;
/// `None` on a non-digit byte.
pub open spec fn dec_value(digits: Seq<u8>, acc: nat) -> Option<nat>
    decreases digits.len(),
{
    if digits.len() == 0 {
        Some(acc)
    } else if 48 <= digits[0] <= 57 {
        dec_value(digits.drop_first(), acc * 10 + (digits[0] - 48) as nat)
    } else {
        None
    }
}

/// The position of the first underscore at or after `i`, if any.
pub open spec fn first_underscore(name: Seq<u8>, i: int) -> Option<int>
    decreases name.len() - i,
{
    if i < 0 || i >= name.len() {
        None
    } else if name[i] == 95 {
        Some(i)
    } else {
        first_underscore(name, i + 1)
    }
}

/// The timestamp a segment name carries: everything after the first
/// underscore, read as a signed 64-bit decimal. Names without an
/// underscore, with a malformed number, or with one out of range carry
/// none, and such segments are never deleted.
pub open spec fn spec_parse_segment(name: Seq<u8>) -> Option<i64> {
    match first_underscore(name, 0) {
        None => None,
        Some(u) => {
            let sfx = name.skip(u + 1);
            if sfx.len() == 0 {
                None
            } else {
                let neg = sfx[0] == 45;
                let ds = if sfx[0] == 45 || sfx[0] == 43 {
                    sfx.skip(1)
                } else {
                    sfx
                };
                if ds.len() == 0 {
                    None
                } else {
                    match dec_value(ds, 0) {
                        None => None,
                        Some(v) => if neg {
                            if v <= 0x8000_0000_0000_0000 {
                                Some((-(v as int)) as i64)
                            } else {
                                None
                            }
                        } else {
                            if v <= 0x7FFF_FFFF_FFFF_FFFF {
                                Some(v as i64)
                            } else {
                                None
                            }
                        },
                    }
                }
            }
        },
    }
}

/// Byte-lexicographic order; for `wal_` names of equal digit count it is
/// chronological order.
pub open spec fn bytes_le(a: Seq<u8>, b: Seq<u8>) -> bool
    decreases a.len(),
{
    if a.len() == 0 {
        true
    } else if b.len() == 0 {
        false
    } else if a[0] < b[0] {
        true
    } else if a[0] > b[0] {
        false
    } else {
        bytes_le(a.drop_first(), b.drop_first())
    }
}

pub proof fn lemma_bytes_le_total(a: Seq<u8>, b: Seq<u8>)
    ensures
        bytes_le(a, b) || bytes_le(b, a),
    decreases a.len(),
{
    if a.len() > 0 && b.len() > 0 && a[0] == b[0] {
        lemma_bytes_le_total(a.drop_first(), b.drop_first());
    }
}

pub proof fn lemma_bytes_le_refl(a: Seq<u8>)
    ensures
        bytes_le(a, a),
    decreases a.len(),
{
    if a.len() > 0 {
        lemma_bytes_le_refl(a.drop_first());
    }
}

pub proof fn lemma_bytes_le_trans(a: Seq<u8>, b: Seq<u8>, c: Seq<u8>)
    requires
        bytes_le(a, b),
        bytes_le(b, c),
    ensures
        bytes_le(a, c),
    decreases a.len(),
{
    if a.len() > 0 && b.len() > 0 && c.len() > 0 && a[0] == b[0] && b[0] == c[0] {
        lemma_bytes_le_trans(a.drop_first(), b.drop_first(), c.drop_first());
    }
}

/// A partial read never shrinks: the final value is at least the
/// accumulator.
proof fn lemma_dec_value_monotone(digits: Seq<u8>, acc: nat)
    ensures
        dec_value(digits, acc) matches Some(v) ==> v >= acc,
    decreases digits.len(),
{
    if digits.len() > 0 && 48 <= digits[0] <= 57 {
        lemma_dec_value_monotone(digits.drop_first(), acc * 10 + (digits[0] - 48) as nat);
    }
}

/// True when the two byte strings are equal.
fn bytes_eq(a: &[u8], b: &[u8]) -> (r: bool)
    ensures
        r == (a@ == b@),
{
    if a.len() != b.len() {
        return false;
    }
    let mut i: usize = 0;
    while i < a.len()
        invariant
            a@.len() == b@.len(),
            0 <= i <= a@.len(),
            forall|j: int| 0 <= j < i ==> a@[j] == b@[j],
        decreases a@.len() - i,
    {
        if *slice_index_get(a, i) != *slice_index_get(b, i) {
            return false;
        }
        i = i + 1;
    }
    proof {
        assert(a@ =~= b@);
    }
    true
}

/// True when `a` is byte-lexicographically at most `b`.
fn bytes_le_exec(a: &[u8], b: &[u8]) -> (r: bool)
    ensures
        r == bytes_le(a@, b@),
{
    let mut i: usize = 0;
    proof {
        assert(a@.skip(0) =~= a@);
        assert(b@.skip(0) =~= b@);
    }
    loop
        invariant
            0 <= i <= a@.len(),
            i <= b@.len(),
            bytes_le(a@, b@) == bytes_le(a@.skip(i as int), b@.skip(i as int)),
        decreases a@.len() - i,
    {
        if i >= a.len() {
            return true;
        }
        if i >= b.len() {
            return false;
        }
        let x = *slice_index_get(a, i);
        let y = *slice_index_get(b, i);
        proof {
            assert(a@.skip(i as int)[0] == x);
            assert(b@.skip(i as int)[0] == y);
            assert(a@.skip(i as int).drop_first() =~= a@.skip(i as int + 1));
            assert(b@.skip(i as int).drop_first() =~= b@.skip(i as int + 1));
        }
        if x < y {
            return true;
        }
        if x > y {
            return false;
        }
        i = i + 1;
    }
}

/// True when `x` is among the byte strings of `list`.
#[verifier::loop_isolation(false)]
fn contains_bytes(list: &Vec<Vec<u8>>, x: &[u8]) -> (r: bool)
    ensures
        r == list.deep_view().contains(x@),
{
    let mut k: usize = 0;
    while k < list.len()
        invariant
            0 <= k <= list@.len(),
            forall|m: int| 0 <= m < k ==> list.deep_view()[m] != x@,
        decreases list@.len() - k,
    {
        let hit = bytes_eq(list[k].as_slice(), x);
        proof {
            assert(list.deep_view()[k as int] == list@[k as int]@);
        }
        if hit {
            return true;
        }
        k = k + 1;
    }
    proof {
        assert(!list.deep_view().contains(x@)) by {
            if list.deep_view().contains(x@) {
                let m = choose|m: int|
                    0 <= m < list.deep_view().len() && list.deep_view()[m] == x@;
                assert(list.deep_view()[m] != x@);
            }
        }
    }
    false
}

/// Appends the decimal digits of `n`.
fn push_digits(n: u64, out: &mut Vec<u8>)
    ensures
        final(out)@ == old(out)@ + dec_digits(n as nat),
    decreases n,
{
    if n < 10 {
        out.push(48 + n as u8);
        proof {
            assert(final(out)@ =~= old(out)@ + dec_digits(n as nat));
        }
    } else {
        push_digits(n / 10, out);
        out.push(48 + (n % 10) as u8);
        proof {
            assert(final(out)@ =~= old(out)@ + dec_digits(n as nat));
        }
    }
}

/// The position of the first underscore in `name`, if any.
fn find_underscore(name: &[u8]) -> (r: Option<usize>)
    ensures
        match r {
            Some(u) => u < name@.len() && first_underscore(name@, 0) == Some(u as int),
            None => first_underscore(name@, 0) is None,
        },
{
    let mut u: usize = 0;
    loop
        invariant
            0 <= u <= name@.len(),
            first_underscore(name@, 0) == first_underscore(name@, u as int),
        decreases name@.len() - u,
    {
        if u >= name.len() {
            return None;
        }
        if *slice_index_get(name, u) == 95 {
            return Some(u);
        }
        u = u + 1;
    }
}

/// Whether a segment name carries a timestamp strictly before the cutoff.
pub open spec fn is_stale(f: Seq<u8>, cutoff: i64) -> bool {
    spec_parse_segment(f) matches Some(ts) && ts < cutoff
}

/// Which segments the timed cleanup is to delete.
pub open spec fn stale_pred(cutoff: i64) -> spec_fn(Seq<u8>) -> bool {
    |f: Seq<u8>| is_stale(f, cutoff)
}

/// Which segments survive a cleanup: those not among the deleted names.
pub open spec fn kept_pred(deleted: Seq<Seq<u8>>) -> spec_fn(Seq<u8>) -> bool {
    |f: Seq<u8>| !deleted.contains(f)
}

/// Tracks the set of WAL segment files by name, the tail among them, and
/// the size limit at which the tail is rotated. The actual files live with
/// the caller, who creates and deletes what these methods decide.
pub struct WALFileManager {
    pub wal_dir_files: Vec<Vec<u8>>,
    pub file_size: u64,
    pub latest_file: Vec<u8>,
}

impl WALFileManager {
    /// The name of the segment created at `now`.
    pub fn segment_name(now: i64) -> (r: Vec<u8>)
        requires
            now >= 0,
        ensures
            r@ == spec_segment_name(now),
    {
        let mut name: Vec<u8> = Vec::new();
        name.push(119);
        name.push(97);
        name.push(108);
        name.push(95);
        push_digits(now as u64, &mut name);
        proof {
            assert(name@ =~= spec_segment_name(now));
        }
        name
    }

    /// The timestamp in a segment's name, if it follows the pattern.
    #[verifier::loop_isolation(false)]
    pub fn parse_segment_timestamp(name: &[u8]) -> (r: Option<i64>)
        ensures
            r == spec_parse_segment(name@),
    {
        let n = name.len();
        let u = match find_underscore(name) {
            Some(u) => u,
            None => {
                return None;
            },
        };
        let sfx_start = u + 1;
        if sfx_start >= n {
            proof {
                assert(name@.skip(sfx_start as int).len() == 0);
            }
            return None;
        }
        let first = *slice_index_get(name, sfx_start);
        proof {
            assert(name@.skip(sfx_start as int)[0] == first);
        }
        let neg = first == 45;
        let ds_start = if first == 45 || first == 43 {
            sfx_start + 1
        } else {
            sfx_start
        };
        proof {
            if first == 45 || first == 43 {
                assert(name@.skip(sfx_start as int).skip(1) =~= name@.skip(ds_start as int));
            }
        }
        if ds_start >= n {
            proof {
                assert(name@.skip(ds_start as int).len() == 0);
            }
            return None;
        }
        let ghost ds = name@.skip(ds_start as int);
        let mut acc: u64 = 0;
        let mut i: usize = ds_start;
        while i < n
            invariant
                n == name@.len(),
                ds == name@.skip(ds_start as int),
                ds_start <= i <= n,
                acc <= 0x8000_0000_0000_0000,
                dec_value(ds, 0) == dec_value(name@.skip(i as int), acc as nat),
            decreases n - i,
        {
            let d = *slice_index_get(name, i);
            proof {
                assert(name@.skip(i as int)[0] == d);
                assert(name@.skip(i as int).drop_first() =~= name@.skip(i as int + 1));
            }
            if d < 48 || d > 57 {
                return None;
            }
            let digit = (d - 48) as u64;
            if acc > 922_337_203_685_477_580 || (acc == 922_337_203_685_477_580 && digit > 8) {
                proof {
                    lemma_dec_value_monotone(
                        name@.skip(i as int + 1),
                        (acc * 10 + digit) as nat,
                    );
                    assert(acc as nat * 10 + digit as nat > 0x8000_0000_0000_0000);
                }
                return None;
            }
            acc = acc * 10 + digit;
            i = i + 1;
        }
        proof {
            assert(name@.skip(i as int).len() == 0);
        }
        if neg {
            if acc == 0x8000_0000_0000_0000 {
                Some(i64::MIN)
            } else {
                Some(-(acc as i64))
            }
        } else {
            if acc > 0x7FFF_FFFF_FFFF_FFFF {
                None
            } else {
                Some(acc as i64)
            }
        }
    }

    /// Sets up the manager over what the directory already holds. An empty
    /// directory gets exactly one fresh segment, whose name is returned so
    /// that the caller can create the file; otherwise the
    /// byte-lexicographically greatest name becomes the tail.
    pub fn new(dir_files: Vec<Vec<u8>>, file_size: u64, now: i64) -> (r: (
        Self,
        Option<Vec<u8>>,
    ))
        requires
            now >= 0,
        ensures
            r.0.file_size == file_size,
            dir_files@.len() == 0 ==> {
                &&& r.0.wal_dir_files@.len() == 1
                &&& r.0.wal_dir_files@[0]@ == spec_segment_name(now)
                &&& r.0.latest_file@ == spec_segment_name(now)
                &&& (r.1 matches Some(c) && c@ == spec_segment_name(now))
            },
            dir_files@.len() > 0 ==> {
                &&& r.0.wal_dir_files == dir_files
                &&& r.1 is None
                &&& (exists|i: int|
                    0 <= i < dir_files@.len() && r.0.latest_file@ == (
                    #[trigger] dir_files@[i])@)
                &&& (forall|i: int|
                    0 <= i < dir_files@.len() ==> bytes_le(
                        (#[trigger] dir_files@[i])@,
                        r.0.latest_file@,
                    ))
            },
    {
        if dir_files.len() == 0 {
            let name = Self::segment_name(now);
            let stored = slice_to_vec(name.as_slice());
            let mut files: Vec<Vec<u8>> = Vec::new();
            files.push(stored);
            let latest = slice_to_vec(name.as_slice());
            return (
                WALFileManager { wal_dir_files: files, file_size, latest_file: latest },
                Some(name),
            );
        }
        let mut latest = slice_to_vec(dir_files[0].as_slice());
        proof {
            lemma_bytes_le_refl(dir_files@[0]@);
        }
        let mut i: usize = 1;
        while i < dir_files.len()
            invariant
                dir_files@.len() > 0,
                1 <= i <= dir_files@.len(),
                exists|k: int|
                    0 <= k < dir_files@.len() && latest@ == (#[trigger] dir_files@[k])@,
                forall|k: int| 0 <= k < i ==> bytes_le((#[trigger] dir_files@[k])@, latest@),
            decreases dir_files@.len() - i,
        {
            let candidate = &dir_files[i];
            if bytes_le_exec(latest.as_slice(), candidate.as_slice()) {
                proof {
                    assert forall|k: int| 0 <= k < i implies bytes_le(
                        (#[trigger] dir_files@[k])@,
                        dir_files@[i as int]@,
                    ) by {
                        lemma_bytes_le_trans(dir_files@[k]@, latest@, dir_files@[i as int]@);
                    }
                    lemma_bytes_le_refl(dir_files@[i as int]@);
                }
                latest = slice_to_vec(candidate.as_slice());
            } else {
                proof {
                    lemma_bytes_le_total(latest@, dir_files@[i as int]@);
                }
            }
            i = i + 1;
        }
        (WALFileManager { wal_dir_files: dir_files, file_size, latest_file: latest }, None)
    }

    pub fn get_latest_file(&self) -> (r: &Vec<u8>)
        ensures
            r@ == self.latest_file@,
    {
        &self.latest_file
    }

    /// Adds a fresh segment named for `now` and makes it the tail; the name
    /// is returned so the caller can create the file.
    pub fn rotate(&mut self, now: i64) -> (created: Vec<u8>)
        requires
            now >= 0,
        ensures
            created@ == spec_segment_name(now),
            final(self).file_size == old(self).file_size,
            final(self).wal_dir_files@.len() == old(self).wal_dir_files@.len() + 1,
            forall|i: int|
                0 <= i < old(self).wal_dir_files@.len()
                    ==> final(self).wal_dir_files@[i] == old(self).wal_dir_files@[i],
            final(self).wal_dir_files@.last()@ == spec_segment_name(now),
            final(self).latest_file@ == spec_segment_name(now),
    {
        let name = Self::segment_name(now);
        let stored = slice_to_vec(name.as_slice());
        self.wal_dir_files.push(stored);
        let latest = slice_to_vec(name.as_slice());
        self.latest_file = latest;
        name
    }

    /// Rotates exactly when the tail has reached the size limit; the new
    /// segment's name is returned then.
    pub fn size_rotate(&mut self, tail_size: u64, now: i64) -> (r: Option<Vec<u8>>)
        requires
            now >= 0,
        ensures
            (r is Some) <==> tail_size >= old(self).file_size,
            final(self).file_size == old(self).file_size,
            match r {
                Some(created) => {
                    &&& created@ == spec_segment_name(now)
                    &&& final(self).wal_dir_files@.len() == old(self).wal_dir_files@.len() + 1
                    &&& (forall|i: int|
                        0 <= i < old(self).wal_dir_files@.len()
                            ==> final(self).wal_dir_files@[i] == old(self).wal_dir_files@[i])
                    &&& final(self).wal_dir_files@.last()@ == spec_segment_name(now)
                    &&& final(self).latest_file@ == spec_segment_name(now)
                },
                None => *final(self) == *old(self),
            },
    {
        if tail_size >= self.file_size {
            let created = self.rotate(now);
            Some(created)
        } else {
            None
        }
    }

    /// The deletion plan: every segment whose name carries a timestamp
    /// strictly before the cutoff, in directory order. The caller deletes
    /// the files and reports back through `commit_cleanup`.
    #[verifier::loop_isolation(false)]
    pub fn timed_cleanup(&self, to_point_in_time: i64) -> (r: Vec<Vec<u8>>)
        ensures
            r.deep_view() == self.wal_dir_files.deep_view().filter(
                stale_pred(to_point_in_time),
            ),
    {
        proof {
            reveal(Seq::filter);
        }
        let ghost pred = stale_pred(to_point_in_time);
        let mut plan: Vec<Vec<u8>> = Vec::new();
        let mut i: usize = 0;
        proof {
            assert(plan.deep_view() =~= self.wal_dir_files.deep_view().take(0).filter(pred));
        }
        while i < self.wal_dir_files.len()
            invariant
                0 <= i <= self.wal_dir_files@.len(),
                pred == stale_pred(to_point_in_time),
                plan.deep_view() == self.wal_dir_files.deep_view().take(i as int).filter(pred),
            decreases self.wal_dir_files@.len() - i,
        {
            let ghost prefix = self.wal_dir_files.deep_view().take(i as int);
            let delete = match Self::parse_segment_timestamp(self.wal_dir_files[i].as_slice()) {
                Some(ts) => ts < to_point_in_time,
                None => false,
            };
            proof {
                assert(self.wal_dir_files.deep_view()[i as int] == self.wal_dir_files@[
                    i as int
                ]@);
                assert(delete == is_stale(self.wal_dir_files.deep_view()[i as int],
                    to_point_in_time));
                assert(delete == pred(self.wal_dir_files.deep_view()[i as int]));
            }
            if delete {
                let ghost old_plan = plan.deep_view();
                plan.push(slice_to_vec(self.wal_dir_files[i].as_slice()));
                proof {
                    assert(plan.deep_view() =~~= old_plan.push(
                        self.wal_dir_files.deep_view()[i as int],
                    ));
                }
            }
            i = i + 1;
            proof {
                reveal(Seq::filter);
                let now_prefix = self.wal_dir_files.deep_view().take(i as int);
                assert(now_prefix.len() == i);
                assert(now_prefix.drop_last() =~= prefix);
                assert(now_prefix.last() == self.wal_dir_files.deep_view()[i - 1]);
                assert(now_prefix.drop_last().filter(pred) == prefix.filter(pred));
                assert(pred(now_prefix.last()) == delete);
                assert(now_prefix.filter(pred) == if pred(now_prefix.last()) {
                    now_prefix.drop_last().filter(pred).push(now_prefix.last())
                } else {
                    now_prefix.drop_last().filter(pred)
                });
                assert(plan.deep_view() =~~= now_prefix.filter(pred));
            }
        }
        proof {
            assert(self.wal_dir_files.deep_view().take(self.wal_dir_files@.len() as int)
                =~= self.wal_dir_files.deep_view());
        }
        plan
    }

    /// Removes the segments that the caller reports deleted and counts
    /// them. If nothing remains, a fresh segment named for `now` is brought
    /// up so the directory is never left empty; its name is returned for
    /// the caller to create.
    #[verifier::loop_isolation(false)]
    pub fn commit_cleanup(&mut self, deleted: &Vec<Vec<u8>>, now: i64) -> (r: (
        usize,
        Option<Vec<u8>>,
    ))
        requires
            now >= 0,
        ensures
            r.0 == deleted@.len(),
            final(self).file_size == old(self).file_size,
            ({
                let kept = old(self).wal_dir_files.deep_view().filter(
                    kept_pred(deleted.deep_view()),
                );
                if kept.len() == 0 {
                    &&& final(self).wal_dir_files@.len() == 1
                    &&& final(self).wal_dir_files@[0]@ == spec_segment_name(now)
                    &&& final(self).latest_file@ == spec_segment_name(now)
                    &&& (r.1 matches Some(c) && c@ == spec_segment_name(now))
                } else {
                    &&& final(self).wal_dir_files.deep_view() == kept
                    &&& r.1 is None
                    &&& final(self).latest_file == old(self).latest_file
                }
            }),
    {
        proof {
            reveal(Seq::filter);
        }
        let ghost pred = kept_pred(deleted.deep_view());
        let mut kept: Vec<Vec<u8>> = Vec::new();
        let mut i: usize = 0;
        proof {
            assert(kept.deep_view() =~= self.wal_dir_files.deep_view().take(0).filter(pred));
        }
        while i < self.wal_dir_files.len()
            invariant
                0 <= i <= self.wal_dir_files@.len(),
                pred == kept_pred(deleted.deep_view()),
                kept.deep_view() == self.wal_dir_files.deep_view().take(i as int).filter(pred),
            decreases self.wal_dir_files@.len() - i,
        {
            let ghost prefix = self.wal_dir_files.deep_view().take(i as int);
            let found = contains_bytes(deleted, self.wal_dir_files[i].as_slice());
            proof {
                assert(self.wal_dir_files.deep_view()[i as int] == self.wal_dir_files@[
                    i as int
                ]@);
                assert(found == !pred(self.wal_dir_files.deep_view()[i as int]));
            }
            if !found {
                let ghost old_kept = kept.deep_view();
                kept.push(slice_to_vec(self.wal_dir_files[i].as_slice()));
                proof {
                    assert(kept.deep_view() =~~= old_kept.push(
                        self.wal_dir_files.deep_view()[i as int],
                    ));
                }
            }
            i = i + 1;
            proof {
                reveal(Seq::filter);
                let now_prefix = self.wal_dir_files.deep_view().take(i as int);
                assert(now_prefix.len() == i);
                assert(now_prefix.drop_last() =~= prefix);
                assert(now_prefix.last() == self.wal_dir_files.deep_view()[i - 1]);
                assert(now_prefix.drop_last().filter(pred) == prefix.filter(pred));
                assert(pred(now_prefix.last()) == !found);
                assert(now_prefix.filter(pred) == if pred(now_prefix.last()) {
                    now_prefix.drop_last().filter(pred).push(now_prefix.last())
                } else {
                    now_prefix.drop_last().filter(pred)
                });
                assert(kept.deep_view() =~~= now_prefix.filter(pred));
            }
        }
        proof {
            assert(self.wal_dir_files.deep_view().take(self.wal_dir_files@.len() as int)
                =~= self.wal_dir_files.deep_view());
        }
        let count = deleted.len();
        self.wal_dir_files = kept;
        if self.wal_dir_files.len() == 0 {
            let created = self.rotate(now);
            (count, Some(created))
        } else {
            (count, None)
        }
    }
}

} // verus!
