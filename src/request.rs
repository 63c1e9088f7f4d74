use vstd::prelude::*;

use crate::color::{bytes_of, channel_value, clone_name, has_byte, split, RawColor, COMMA, DOT, HASH};
use crate::error::{ColorError, ParaFault};

verus! {

/// The color difference used to score candidates.
#[derive(Debug, Clone, Copy, PartialEq, Eq)]
pub enum Metric {
    /// CIEDE2000, selected by 1.
    Ciede2000,
    /// The earlier Delta E formula, selected by 2.
    DeltaE,
    /// Euclidean distance in the perceptual space, selected by 3.
    Euclidean,
}

/// The metric that a selector names, if it names one.
pub open spec fn metric_of(a: u8) -> Option<Metric> {
    if a == 1 {
        Some(Metric::Ciede2000)
    } else if a == 2 {
        Some(Metric::DeltaE)
    } else if a == 3 {
        Some(Metric::Euclidean)
    } else {
        None
    }
}

/// The metric asked for: the first one where none is given.
pub open spec fn wanted_metric(algorithm: Option<u8>) -> Option<Metric> {
    match algorithm {
        None => Some(Metric::Ciede2000),
        Some(a) => metric_of(a),
    }
}

/// The number of matches asked for: one where none is given.
pub open spec fn wanted_num(num: Option<usize>) -> usize {
    match num {
        None => 1,
        Some(n) => n,
    }
}

/// A token that reads as a color.
pub open spec fn parses(raw: Seq<char>) -> bool {
    let b = bytes_of(raw);
    let f = split(b, COMMA);
    if has_byte(b, COMMA) {
        f.len() == 3 && (has_byte(b, DOT) || (channel_value(f[0]) is Some && channel_value(f[1]) is Some
            && channel_value(f[2]) is Some))
    } else if b.len() > 0 && b[0] == HASH {
        b.len() == 4 || b.len() == 7
    } else {
        b.len() == 3 || b.len() == 6
    }
}

/// Parsing gives a color exactly where the token `parses`.
pub proof fn lemma_parsed_ok(raw: Seq<char>, r: Result<RawColor, ColorError>)
    requires
        RawColor::parsed(raw, r),
    ensures
        r is Ok <==> parses(raw),
{
}

/// Checks the metric selector.
pub fn check_algorithm(algorithm: Option<u8>) -> (r: Result<Metric, ColorError>)
    ensures
        wanted_metric(algorithm) is Some ==> r == Ok::<Metric, ColorError>(wanted_metric(algorithm)->0),
        wanted_metric(algorithm) is None ==> (r matches Err(
            ColorError::ParaError(ParaFault::Algorithm { value: a }),
        ) && algorithm == Some(a)),
{
    match algorithm {
        None => Ok(Metric::Ciede2000),
        Some(a) => {
            if a == 1 {
                Ok(Metric::Ciede2000)
            } else if a == 2 {
                Ok(Metric::DeltaE)
            } else if a == 3 {
                Ok(Metric::Euclidean)
            } else {
                Err(ColorError::ParaError(ParaFault::Algorithm { value: a }))
            }
        },
    }
}

/// Checks the number of matches asked for against the number of candidates.
pub fn check_num(num: Option<usize>, count: usize) -> (r: Result<usize, ColorError>)
    ensures
        wanted_num(num) == 0 ==> (r matches Err(ColorError::ParaError(ParaFault::NumZero))),
        wanted_num(num) > count ==> (r matches Err(
            ColorError::ParaError(ParaFault::NumTooLarge { num: n, count: c }),
        ) && n == wanted_num(num) && c == count),
        1 <= wanted_num(num) <= count ==> r == Ok::<usize, ColorError>(wanted_num(num)),
{
    let n: usize = match num {
        None => 1,
        Some(n) => n,
    };
    if n == 0 {
        Err(ColorError::ParaError(ParaFault::NumZero))
    } else if n > count {
        Err(ColorError::ParaError(ParaFault::NumTooLarge { num: n, count }))
    } else {
        Ok(n)
    }
}

/// A validated request.
#[derive(Debug)]
pub struct ParsedParas {
    /// The colors to find matches for.
    pub color: Vec<RawColor>,
    /// The candidates, each with its name if it has one.
    pub candidate: Vec<(Option<String>, RawColor)>,
    /// How many matches to report for each color.
    pub num: usize,
    /// The metric that scores candidates.
    pub algorithm: Metric,
}

/// Builds a request from the color tokens, the candidates with their names,
/// and the optional number and metric selector. The selector is checked
/// first, then each color and each candidate in turn, then the number; the
/// first failure is returned.
pub fn parse_para(
    colors: Vec<String>,
    candidates: Vec<(Option<String>, String)>,
    num: Option<usize>,
    algorithm: Option<u8>,
) -> (r: Result<ParsedParas, ColorError>)
    ensures
        wanted_metric(algorithm) is None ==> (r matches Err(
            ColorError::ParaError(ParaFault::Algorithm { value: a }),
        ) && algorithm == Some(a)),
        wanted_metric(algorithm) is Some ==> forall|i: int|
            0 <= i < colors.len() && !parses(colors@[i]@) && (forall|j: int|
                0 <= j < i ==> parses(#[trigger] colors@[j]@)) ==> #[trigger] RawColor::parsed(
                colors@[i]@,
                Err(r->Err_0),
            ) && r is Err,
        wanted_metric(algorithm) is Some && (forall|j: int|
            0 <= j < colors.len() ==> parses(#[trigger] colors@[j]@)) ==> forall|i: int|
            0 <= i < candidates.len() && !parses(candidates@[i].1@) && (forall|j: int|
                0 <= j < i ==> parses(#[trigger] candidates@[j].1@)) ==> #[trigger] RawColor::parsed(
                candidates@[i].1@,
                Err(r->Err_0),
            ) && r is Err,
        wanted_metric(algorithm) is Some && (forall|j: int|
            0 <= j < colors.len() ==> parses(#[trigger] colors@[j]@)) && (forall|j: int|
            0 <= j < candidates.len() ==> parses(#[trigger] candidates@[j].1@)) ==> {
            &&& wanted_num(num) == 0 ==> (r matches Err(ColorError::ParaError(ParaFault::NumZero)))
            &&& wanted_num(num) > candidates.len() ==> (r matches Err(
                ColorError::ParaError(ParaFault::NumTooLarge { num: n, count: c }),
            ) && n == wanted_num(num) && c == candidates.len())
            &&& 1 <= wanted_num(num) <= candidates.len() ==> (r matches Ok(p) && p.num == wanted_num(num)
                && p.algorithm == wanted_metric(algorithm)->0 && p.color.len() == colors.len()
                && p.candidate.len() == candidates.len() && (forall|i: int|
                0 <= i < colors.len() ==> #[trigger] RawColor::parsed(colors@[i]@, Ok(p.color@[i])))
                && (forall|i: int|
                0 <= i < candidates.len() ==> p.candidate@[i].0 == candidates@[i].0
                    && #[trigger] RawColor::parsed(candidates@[i].1@, Ok(p.candidate@[i].1))))
        },
{
    let metric = match check_algorithm(algorithm) {
        Ok(m) => m,
        Err(e) => {
            return Err(e);
        },
    };
    let mut color: Vec<RawColor> = Vec::with_capacity(colors.len());
    let mut i: usize = 0;
    while i < colors.len()
        invariant
            i <= colors@.len(),
            color@.len() == i,
            wanted_metric(algorithm) == Some(metric),
            forall|j: int| 0 <= j < i ==> parses(#[trigger] colors@[j]@),
            forall|j: int| 0 <= j < i ==> #[trigger] RawColor::parsed(colors@[j]@, Ok(color@[j])),
        decreases colors@.len() - i,
    {
        let res = RawColor::new(colors[i].clone());
        proof {
            lemma_parsed_ok(colors@[i as int]@, res);
        }
        match res {
            Ok(c) => {
                color.push(c);
            },
            Err(e) => {
                return Err(e);
            },
        }
        i = i + 1;
    }
    let mut candidate: Vec<(Option<String>, RawColor)> = Vec::with_capacity(candidates.len());
    let mut i: usize = 0;
    while i < candidates.len()
        invariant
            i <= candidates@.len(),
            candidate@.len() == i,
            wanted_metric(algorithm) == Some(metric),
            color@.len() == colors@.len(),
            forall|j: int| 0 <= j < colors@.len() ==> parses(#[trigger] colors@[j]@),
            forall|j: int| 0 <= j < colors@.len() ==> #[trigger] RawColor::parsed(colors@[j]@, Ok(color@[j])),
            forall|j: int| 0 <= j < i ==> parses(#[trigger] candidates@[j].1@),
            forall|j: int| 0 <= j < i ==> (#[trigger] candidate@[j]).0 == candidates@[j].0,
            forall|j: int|
                0 <= j < i ==> #[trigger] RawColor::parsed(candidates@[j].1@, Ok(candidate@[j].1)),
        decreases candidates@.len() - i,
    {
        let res = RawColor::new(candidates[i].1.clone());
        proof {
            lemma_parsed_ok(candidates@[i as int].1@, res);
        }
        let ghost res_g = res;
        match res {
            Ok(c) => {
                let name = clone_name(&candidates[i].0);
                let ghost before = candidate@;
                candidate.push((name, c));
                proof {
                    assert(forall|j: int| 0 <= j < i ==> candidate@[j] == before[j]);
                    assert(res_g == Ok::<RawColor, ColorError>(candidate@[i as int].1));
                    assert(RawColor::parsed(candidates@[i as int].1@, Ok(candidate@[i as int].1)));
                    assert(candidate@[i as int].0 == candidates@[i as int].0);
                    assert forall|j: int| 0 <= j < i + 1 implies candidate@[j].0 == candidates@[j].0
                        && #[trigger] RawColor::parsed(candidates@[j].1@, Ok(candidate@[j].1)) by {
                        if j < i {
                            assert(candidate@[j] == before[j]);
                            assert(RawColor::parsed(candidates@[j].1@, Ok(before[j].1)));
                        }
                    }
                }
            },
            Err(e) => {
                return Err(e);
            },
        }
        i = i + 1;
    }
    let num = match check_num(num, candidate.len()) {
        Ok(n) => n,
        Err(e) => {
            return Err(e);
        },
    };
    Ok(ParsedParas { color, candidate, num, algorithm: metric })
}

} // verus!
