use vstd::prelude::*;
use crate::codec::{decode_line, parse_line, LineError};
use crate::keypair::{public_key_to_u128, KeyPair, KeyPairModel};

verus! {

/// A checkpoint line that could not be read: its index and the reason.
#[derive(Clone, Copy, Debug, PartialEq, Eq, Structural)]
pub struct LoadError {
    pub line: usize,
    pub reason: LineError,
}

/// The byte contents of each line.
pub open spec fn lines_view(lines: Seq<Vec<u8>>) -> Seq<Seq<u8>> {
    lines.map_values(|l: Vec<u8>| l@)
}

/// The incumbent after one more valid entry: the entry replaces it only when
/// its value is strictly greater.
pub open spec fn keep_larger(best: Option<KeyPairModel>, kp: KeyPairModel) -> Option<KeyPairModel> {
    match best {
        Some(b) => if kp.value() > b.value() {
            Some(kp)
        } else {
            Some(b)
        },
        None => Some(kp),
    }
}

/// What a checkpoint log holds: the first line that fails to parse is an
/// error; otherwise the first entry of greatest value, or none for no lines.
pub open spec fn load_spec(lines: Seq<Seq<u8>>) -> Result<Option<KeyPairModel>, LoadError>
    decreases lines.len(),
{
    if lines.len() == 0 {
        Ok(None)
    } else {
        match load_spec(lines.drop_last()) {
            Err(e) => Err(e),
            Ok(best) => match parse_line(lines.last()) {
                Err(reason) => Err(LoadError { line: (lines.len() - 1) as usize, reason }),
                Ok(kp) => Ok(keep_larger(best, kp)),
            },
        }
    }
}

/// The model of a loading result.
pub open spec fn load_view(r: Result<Option<KeyPair>, LoadError>) -> Result<
    Option<KeyPairModel>,
    LoadError,
> {
    match r {
        Ok(Some(kp)) => Ok(Some(kp@)),
        Ok(None) => Ok(None),
        Err(e) => Err(e),
    }
}

proof fn lemma_error_persists(lines: Seq<Seq<u8>>, m: int, n: int)
    requires
        0 <= m <= n <= lines.len(),
        load_spec(lines.take(m)) is Err,
    ensures
        load_spec(lines.take(n)) == load_spec(lines.take(m)),
    decreases n - m,
{
    if m < n {
        lemma_error_persists(lines, m, n - 1);
        assert(lines.take(n).drop_last() =~= lines.take(n - 1));
    }
}

/// Finds the entry of greatest comparable value in the lines of a checkpoint
/// log; the first line that does not parse makes the whole load fail.
pub fn load_max(lines: &Vec<Vec<u8>>) -> (r: Result<Option<KeyPair>, LoadError>)
    ensures
        load_view(r) == load_spec(lines_view(lines@)),
        r matches Ok(Some(kp)) ==> kp@.wf(),
{
    let ghost all = lines_view(lines@);
    let mut best: Option<KeyPair> = None;
    let mut best_value: u128 = 0;
    let mut i: usize = 0;
    assert(all.take(0) =~= Seq::<Seq<u8>>::empty());
    while i < lines.len()
        invariant
            i <= lines@.len(),
            all == lines_view(lines@),
            load_spec(all.take(i as int)) == load_view(Ok(best)),
            best matches Some(b) ==> b@.wf() && best_value as nat == b@.value(),
        decreases lines@.len() - i,
    {
        let ghost prefix = all.take(i as int + 1);
        assert(prefix.drop_last() =~= all.take(i as int));
        assert(prefix.last() == lines@[i as int]@);
        let kp = match decode_line(lines[i].as_slice()) {
            Ok(kp) => kp,
            Err(reason) => {
                proof {
                    lemma_error_persists(all, i as int + 1, all.len() as int);
                    assert(all.take(all.len() as int) =~= all);
                }
                return Err(LoadError { line: i, reason });
            },
        };
        let v = public_key_to_u128(&kp);
        let replace = match &best {
            Some(_) => v > best_value,
            None => true,
        };
        if replace {
            best = Some(kp);
            best_value = v;
        }
        i = i + 1;
    }
    assert(all.take(i as int) =~= all);
    Ok(best)
}

/// A load that succeeds read every line as a valid entry, found nothing
/// exactly when there were no lines, and otherwise chose an entry whose value
/// no other entry exceeds and which every earlier entry falls short of.
pub proof fn lemma_load_picks_first_maximum(lines: Seq<Seq<u8>>)
    requires
        load_spec(lines) is Ok,
    ensures
        forall|j: int| 0 <= j < lines.len() ==> #[trigger] parse_line(lines[j]) is Ok,
        load_spec(lines) == Ok::<Option<KeyPairModel>, LoadError>(None) <==> lines.len() == 0,
        load_spec(lines) matches Ok(Some(kp)) ==> exists|i: int|
            0 <= i < lines.len() && parse_line(#[trigger] lines[i]) == Ok::<
                KeyPairModel,
                LineError,
            >(kp) && (forall|j: int|
                0 <= j < lines.len() ==> (parse_line(lines[j])->Ok_0).value() <= kp.value()) && (
            forall|j: int| 0 <= j < i ==> (parse_line(lines[j])->Ok_0).value() < kp.value()),
    decreases lines.len(),
{
    if lines.len() > 0 {
        let init = lines.drop_last();
        lemma_load_picks_first_maximum(init);
        let n = lines.len() - 1;
        assert forall|j: int| 0 <= j < n implies lines[j] == init[j] by {}
        let last = parse_line(lines[n])->Ok_0;
        match load_spec(init) {
            Ok(Some(b)) => {
                let i = choose|i: int|
                    0 <= i < init.len() && parse_line(#[trigger] init[i]) == Ok::<
                        KeyPairModel,
                        LineError,
                    >(b) && (forall|j: int|
                        0 <= j < init.len() ==> (parse_line(init[j])->Ok_0).value() <= b.value())
                        && (forall|j: int|
                        0 <= j < i ==> (parse_line(init[j])->Ok_0).value() < b.value());
                if last.value() > b.value() {
                    assert(parse_line(lines[n]) == Ok::<KeyPairModel, LineError>(last));
                } else {
                    assert(parse_line(lines[i]) == Ok::<KeyPairModel, LineError>(b));
                }
            },
            _ => {
                assert(parse_line(lines[n]) == Ok::<KeyPairModel, LineError>(last));
            },
        }
    }
}

} // verus!
