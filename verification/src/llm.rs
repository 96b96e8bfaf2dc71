//! The LLM distiller's verified core: token-budget chunking with
//! overlap, prompt assembly, response-tag extraction, the retry and
//! backoff state machine, and ordered reassembly of results.
//!
//! The network dispatch itself is I/O and lives outside the library;
//! it drives the state machine one event at a time and hands the
//! results back for reassembly.

use vstd::prelude::*;
use vstd::string::StringSliceAdditionalSpecFns;
use crate::strutil::{
    words_of,
    split_words,
    join_with,
    join_bytes,
    seqs_of,
    trim_of,
    trim,
    find_of,
    find_bytes,
    append_bytes,
};

verus! {

/// Connection settings and retry policy for the completion endpoint.
/// The backoff factor is an integer multiplier applied per attempt.
pub struct LLMConfig {
    pub provider: String,
    pub api_token: String,
    pub base_url: Option<String>,
    pub backoff_base_delay: u64,
    pub backoff_max_attempts: u32,
    pub backoff_exponential_factor: u64,
}

/// The distiller's configuration. `overlap_rate` and `word_token_rate`
/// are in thousandths: an overlap of 0.1 is written 100 and a token
/// rate of 0.75 is written 750.
pub struct LLMContentFilter {
    pub config: LLMConfig,
    pub instruction: String,
    pub chunk_token_threshold: usize,
    pub overlap_rate: u64,
    pub word_token_rate: u64,
    pub ignore_cache: bool,
}

/// The estimated token count of a word list, in whole tokens.
pub open spec fn est_tokens(n_words: int, rate_milli: int) -> int {
    n_words * rate_milli / 1000
}

/// The sliding windows over a word list: each window holds `cs` words
/// (fewer at the end) joined by single spaces, and the start advances
/// by `step` until a window reaches the end.
pub open spec fn windows_from(words: Seq<Seq<u8>>, i: int, cs: int, step: int) -> Seq<Seq<u8>>
    decreases words.len() - i,
{
    if i < 0 || i >= words.len() || step < 1 {
        Seq::empty()
    } else {
        let end = if i + cs < words.len() {
            i + cs
        } else {
            words.len() as int
        };
        let chunk = join_with(words.subrange(i, end), " ".spec_bytes());
        if end == words.len() {
            seq![chunk]
        } else {
            let rest = if i + step < words.len() {
                windows_from(words, i + step, cs, step)
            } else {
                Seq::empty()
            };
            seq![chunk] + rest
        }
    }
}

/// The chunks the distiller sends: the whole text when its estimated
/// token count fits the threshold, else overlapping word windows. The
/// window size and the advance are at least one word, so the windows
/// always reach the end.
pub open spec fn merged_chunks(
    text: Seq<u8>,
    threshold: int,
    rate_milli: int,
    overlap_milli: int,
) -> Seq<Seq<u8>> {
    let words = words_of(text);
    if words.len() == 0 {
        Seq::empty()
    } else if est_tokens(words.len() as int, rate_milli) <= threshold {
        seq![text]
    } else {
        let cs0 = threshold * 1000 / rate_milli;
        let cs = if cs0 < 1 {
            1
        } else if cs0 > usize::MAX {
            usize::MAX as int
        } else {
            cs0
        };
        let ov = cs * overlap_milli / 1000;
        let step = if cs - ov < 1 {
            1
        } else {
            cs - ov
        };
        windows_from(words, 0, cs, step)
    }
}

impl Default for LLMContentFilter {
    /// A placeholder configuration with the default budget and rates;
    /// the empty token must be replaced before any request is sent.
    fn default() -> (r: Self)
        ensures
            r.chunk_token_threshold == 4096,
            r.overlap_rate == 100,
            r.word_token_rate == 750,
            r.config.backoff_max_attempts == 3,
    {
        LLMContentFilter {
            config: LLMConfig {
                provider: "openai/gpt-4o-mini".to_owned(),
                api_token: "".to_owned(),
                base_url: Option::None,
                backoff_base_delay: 2,
                backoff_max_attempts: 3,
                backoff_exponential_factor: 2,
            },
            instruction:
                "Convert this HTML into clean, relevant markdown, removing any noise or irrelevant content.".to_owned(),
            chunk_token_threshold: 4096,
            overlap_rate: 100,
            word_token_rate: 750,
            ignore_cache: true,
        }
    }
}

impl LLMContentFilter {
    /// Builds a filter over a connection configuration; unset options
    /// fall back to the defaults (a 4096-token budget, a 0.1 overlap).
    pub fn new(
        config: LLMConfig,
        instruction: Option<String>,
        chunk_token_threshold: Option<usize>,
        overlap_rate: Option<u64>,
    ) -> (r: Self)
        ensures
            r.config == config,
            match instruction {
                Option::Some(s) => r.instruction == s,
                Option::None => r.instruction@
                    == "Convert this HTML into clean, relevant markdown, removing any noise or irrelevant content."@,
            },
            r.chunk_token_threshold == match chunk_token_threshold {
                Option::Some(t) => t,
                Option::None => 4096usize,
            },
            r.overlap_rate == match overlap_rate {
                Option::Some(o) => o,
                Option::None => 100u64,
            },
            r.word_token_rate == 750,
            r.ignore_cache == true,
    {
        let instr = match instruction {
            Option::Some(s) => s,
            Option::None =>
                "Convert this HTML into clean, relevant markdown, removing any noise or irrelevant content.".to_owned(),
        };
        LLMContentFilter {
            config,
            instruction: instr,
            chunk_token_threshold: match chunk_token_threshold {
                Option::Some(t) => t,
                Option::None => 4096,
            },
            overlap_rate: match overlap_rate {
                Option::Some(o) => o,
                Option::None => 100,
            },
            word_token_rate: 750,
            ignore_cache: true,
        }
    }

    /// Splits the input into chunks that fit the token budget. Text
    /// within the threshold comes back as exactly one chunk.
    pub fn merge_chunks(&self, text: &[u8]) -> (r: Vec<Vec<u8>>)
        ensures
            seqs_of(r) == merged_chunks(
                text@,
                self.chunk_token_threshold as int,
                self.word_token_rate as int,
                self.overlap_rate as int,
            ),
            est_tokens(words_of(text@).len() as int, self.word_token_rate as int)
                <= self.chunk_token_threshold && words_of(text@).len() > 0 ==> r@.len() == 1,
    {
        let words = split_words(text);
        let ghost gwords = words_of(text@);
        let mut out: Vec<Vec<u8>> = Vec::new();
        proof {
            assert(seqs_of(out) =~= Seq::<Seq<u8>>::empty());
        }
        if words.len() == 0 {
            return out;
        }
        proof {
            assert((words@.len() as int) * (self.word_token_rate as int) <= 0xffff_ffff_ffff_ffff
                * 0xffff_ffff_ffff_ffff) by (nonlinear_arith)
                requires
                    words@.len() <= 0xffff_ffff_ffff_ffff,
                    self.word_token_rate <= 0xffff_ffff_ffff_ffff,
            ;
        }
        let est: u128 = (words.len() as u128) * (self.word_token_rate as u128) / 1000;
        if est <= self.chunk_token_threshold as u128 {
            let whole = vstd::slice::slice_to_vec(text);
            let ghost wv = whole@;
            out.push(whole);
            proof {
                assert(seqs_of(out) =~= seq![wv]);
            }
            return out;
        }
        proof {
            assert(self.word_token_rate >= 1);
        }
        let cs0: u128 = (self.chunk_token_threshold as u128) * 1000 / (self.word_token_rate
            as u128);
        let cs: usize = if cs0 < 1 {
            1
        } else if cs0 > usize::MAX as u128 {
            usize::MAX
        } else {
            cs0 as usize
        };
        proof {
            assert((cs as int) * (self.overlap_rate as int) <= 0xffff_ffff_ffff_ffff
                * 0xffff_ffff_ffff_ffff) by (nonlinear_arith)
                requires
                    cs <= 0xffff_ffff_ffff_ffff,
                    self.overlap_rate <= 0xffff_ffff_ffff_ffff,
            ;
        }
        let ovq: u128 = (cs as u128) * (self.overlap_rate as u128) / 1000;
        let step: usize = if ovq >= cs as u128 {
            1
        } else {
            let s = cs - (ovq as usize);
            if s < 1 {
                1
            } else {
                s
            }
        };
        let ghost gcs = cs as int;
        let ghost gstep = step as int;
        let mut i: usize = 0;
        let mut done = false;
        proof {
            assert(windows_from(gwords, 0, gcs, gstep) == seqs_of(out) + windows_from(
                gwords,
                0,
                gcs,
                gstep,
            )) by {
                assert(seqs_of(out) + windows_from(gwords, 0, gcs, gstep) =~= windows_from(
                    gwords,
                    0,
                    gcs,
                    gstep,
                ));
            }
        }
        while !done
            invariant
                step >= 1,
                cs >= 1,
                step <= cs,
                gcs == cs as int,
                gstep == step as int,
                gwords == words_of(text@),
                seqs_of(words) == gwords,
                words@.len() == gwords.len(),
                gwords.len() > 0,
                !done ==> i < words@.len(),
                !done ==> windows_from(gwords, 0, gcs, gstep) == seqs_of(out) + windows_from(
                    gwords,
                    i as int,
                    gcs,
                    gstep,
                ),
                done ==> seqs_of(out) == windows_from(gwords, 0, gcs, gstep),
            decreases (if done {
                0int
            } else {
                words@.len() - i + 1
            }),
        {
            let end: usize = if words.len() - i > cs {
                i + cs
            } else {
                words.len()
            };
            proof {
                assert(end as int == (if i + gcs < gwords.len() {
                    i + gcs
                } else {
                    gwords.len() as int
                }));
            }
            let mut win: Vec<Vec<u8>> = Vec::new();
            let mut j: usize = i;
            while j < end
                invariant
                    i <= j <= end <= words@.len(),
                    seqs_of(words) == gwords,
                    words@.len() == gwords.len(),
                    seqs_of(win) == gwords.subrange(i as int, j as int),
                decreases end - j,
            {
                let w = vstd::slice::slice_to_vec(words[j].as_slice());
                let ghost before = seqs_of(win);
                let ghost wv = w@;
                win.push(w);
                proof {
                    assert(seqs_of(win) =~= before.push(wv));
                    assert(gwords.subrange(i as int, j as int).push(gwords[j as int])
                        =~= gwords.subrange(i as int, j + 1));
                }
                j = j + 1;
            }
            let chunk = join_bytes(&win, " ".as_bytes());
            let ghost before_out = seqs_of(out);
            let ghost cv = chunk@;
            out.push(chunk);
            proof {
                assert(seqs_of(out) =~= before_out.push(cv));
            }
            if end == words.len() {
                done = true;
                proof {
                    assert(windows_from(gwords, i as int, gcs, gstep) =~= seq![cv]);
                    assert(seqs_of(out) =~= windows_from(gwords, 0, gcs, gstep));
                }
            } else {
                proof {
                    assert(windows_from(gwords, i as int, gcs, gstep) =~= seq![cv]
                        + windows_from(gwords, i + gstep, gcs, gstep));
                    assert(seqs_of(out) + windows_from(gwords, i + gstep, gcs, gstep)
                        =~= windows_from(gwords, 0, gcs, gstep));
                }
                i = i + step;
                if i >= words.len() {
                    proof {
                        assert(windows_from(gwords, i as int, gcs, gstep)
                            =~= Seq::<Seq<u8>>::empty());
                        assert(seqs_of(out) =~= windows_from(gwords, 0, gcs, gstep));
                    }
                    done = true;
                }
            }
        }
        out
    }
}

/// The prompt around one chunk: fixed instructions, the chunk between
/// literal delimiter markers, and the user instruction between its own
/// markers.
pub open spec fn prompt_bytes(chunk: Seq<u8>, instr: Seq<u8>) -> Seq<u8> {
    PROMPT_HEAD.spec_bytes() + chunk + PROMPT_MID.spec_bytes() + instr + PROMPT_TAIL.spec_bytes()
}

pub const PROMPT_HEAD: &'static str = "Your task is to filter and convert HTML content into clean, focused markdown that's optimized for use with LLMs and information retrieval systems.\n\nTASK DETAILS:\n1. Content Selection\n- DO: Keep essential information, main content, key details\n- DO: Preserve hierarchical structure using markdown headers\n- DO: Keep code blocks, tables, key lists\n- DON'T: Include navigation menus, ads, footers, cookie notices\n- DON'T: Keep social media widgets, sidebars, related content\n\n2. Content Transformation\n- DO: Use proper markdown syntax (#, ##, **, `, etc)\n- DO: Convert tables to markdown tables\n- DO: Preserve code formatting with ```language blocks\n- DO: Maintain link texts but remove tracking parameters\n- DON'T: Include HTML tags in output\n- DON'T: Keep class names, ids, or other HTML attributes\n\n3. Content Organization\n- DO: Maintain logical flow of information\n- DO: Group related content under appropriate headers\n- DO: Use consistent header levels\n- DON'T: Fragment related content\n- DON'T: Duplicate information\n\nIMPORTANT: If user specific instruction is provided, ignore above guideline and prioritize those requirements over these general guidelines.\n\nOUTPUT FORMAT:\nWrap your response in <content> tags. Use proper markdown throughout.\n<content>\n[Your markdown content here]\n</content>\n\nBegin filtering now.\n\n--------------------------------------------\n\n<|HTML_CONTENT_START|>\n";

pub const PROMPT_MID: &'static str = "\n<|HTML_CONTENT_END|>\n\n<|USER_INSTRUCTION_START|>\n";

pub const PROMPT_TAIL: &'static str = "\n<|USER_INSTRUCTION_END|>\n";

/// Assembles the prompt for one chunk.
pub fn build_prompt(chunk: &[u8], instruction: &[u8]) -> (r: Vec<u8>)
    ensures
        r@ == prompt_bytes(chunk@, instruction@),
{
    let mut out: Vec<u8> = Vec::new();
    append_bytes(&mut out, PROMPT_HEAD.as_bytes());
    append_bytes(&mut out, chunk);
    append_bytes(&mut out, PROMPT_MID.as_bytes());
    append_bytes(&mut out, instruction);
    append_bytes(&mut out, PROMPT_TAIL.as_bytes());
    proof {
        assert(out@ =~= prompt_bytes(chunk@, instruction@));
    }
    out
}

/// What a response contributes: the trimmed text strictly between the
/// first `<content>` and the first `</content>` when both exist in
/// that order, else the full response.
pub open spec fn extracted_content(s: Seq<u8>) -> Seq<u8> {
    match find_of(s, "<content>".spec_bytes()) {
        Option::Some(st) => match find_of(s, "</content>".spec_bytes()) {
            Option::Some(en) => if st + 9 <= en {
                trim_of(s.subrange(st + 9, en))
            } else {
                s
            },
            Option::None => s,
        },
        Option::None => s,
    }
}

/// Pulls the `<content>`-delimited markdown out of a response.
pub fn extract_content(s: &[u8]) -> (r: Vec<u8>)
    ensures
        r@ == extracted_content(s@),
{
    let open_at = find_bytes(s, "<content>".as_bytes());
    let close_at = find_bytes(s, "</content>".as_bytes());
    match (open_at, close_at) {
        (Option::Some(st), Option::Some(en)) => {
            proof {
                reveal_strlit("<content>");
                reveal_strlit("</content>");
                assert("<content>"@.len() == 9);
                assert("</content>"@.len() == 10);
                vstd::string::is_ascii_spec_bytes("<content>");
                vstd::string::is_ascii_spec_bytes("</content>");
                crate::strutil::lemma_find_from_some(
                    s@,
                    "<content>".spec_bytes(),
                    0,
                    st as int,
                );
                crate::strutil::lemma_find_from_some(
                    s@,
                    "</content>".spec_bytes(),
                    0,
                    en as int,
                );
            }
            if en >= 9 && st <= en - 9 {
                let mut body: Vec<u8> = Vec::new();
                let mut i: usize = st + 9;
                proof {
                    assert(body@ =~= s@.subrange(st + 9, st + 9));
                }
                while i < en
                    invariant
                        st + 9 <= i <= en <= s@.len(),
                        body@ == s@.subrange(st + 9, i as int),
                    decreases en - i,
                {
                    body.push(s[i]);
                    proof {
                        assert(body@ =~= s@.subrange(st + 9, i + 1));
                    }
                    i = i + 1;
                }
                trim(body.as_slice())
            } else {
                vstd::slice::slice_to_vec(s)
            }
        },
        _ => vstd::slice::slice_to_vec(s),
    }
}

/// The retry machine for one chunk's completion call.
pub enum RetryState {
    /// A request for this attempt number (starting at 1) is in flight.
    Attempting { attempt: u32 },
    /// Sleep for the given delay, then retry with the given attempt.
    Backoff { next_attempt: u32, delay_secs: u64 },
    /// The chunk's extracted content.
    Succeeded { content: Vec<u8> },
    /// Retryable failures exhausted the attempt budget.
    Exhausted,
    /// A non-retryable response ended this chunk.
    Failed { status: u16 },
}

/// What the dispatcher observed for one request.
pub enum LlmEvent {
    /// A successful response; the body is the model's message text.
    Success { body: Vec<u8> },
    /// HTTP 429.
    RateLimited,
    /// The transport failed before any response.
    TransportError,
    /// Any other non-success status.
    HttpError { status: u16 },
}

/// The backoff delay before the given attempt:
/// `base * factor^(attempt - 1)`, saturating.
pub open spec fn delay_spec(base: u64, factor: u64, attempt: int) -> u64
    decreases attempt,
{
    if attempt <= 1 {
        base
    } else {
        let prev = delay_spec(base, factor, attempt - 1);
        if prev * factor > u64::MAX {
            u64::MAX
        } else {
            (prev * factor) as u64
        }
    }
}

pub fn delay_secs(base: u64, factor: u64, attempt: u32) -> (r: u64)
    ensures
        r == delay_spec(base, factor, attempt as int),
{
    let mut d: u64 = base;
    let mut n: u32 = 1;
    while n < attempt
        invariant
            1 <= n,
            attempt >= 1 ==> n <= attempt,
            attempt < 1 ==> n == 1,
            d == delay_spec(base, factor, n as int),
        decreases attempt - n,
    {
        if factor != 0 && d > u64::MAX / factor {
            proof {
                let m: int = u64::MAX as int;
                let q: int = m / factor as int;
                let rr: int = m % factor as int;
                vstd::arithmetic::div_mod::lemma_fundamental_div_mod(m, factor as int);
                assert((d as int) * (factor as int) > m) by (nonlinear_arith)
                    requires
                        d >= q + 1,
                        factor >= 1,
                        m == q * factor + rr,
                        0 <= rr < factor,
                        q >= 0,
                ;
            }
            d = u64::MAX;
        } else {
            proof {
                if factor != 0 {
                    let m: int = u64::MAX as int;
                    let q: int = m / factor as int;
                    let rr: int = m % factor as int;
                    vstd::arithmetic::div_mod::lemma_fundamental_div_mod(m, factor as int);
                    assert((d as int) * (factor as int) <= m) by (nonlinear_arith)
                        requires
                            0 <= d <= q,
                            factor >= 1,
                            m == q * factor + rr,
                            0 <= rr,
                    ;
                }
            }
            d = d * factor;
        }
        n = n + 1;
    }
    d
}

/// Whether two states agree, comparing carried content by value.
pub open spec fn state_matches(a: RetryState, b: RetryState) -> bool {
    match (a, b) {
        (RetryState::Succeeded { content: x }, RetryState::Succeeded { content: y }) => x@ == y@,
        (RetryState::Attempting { attempt: x }, RetryState::Attempting { attempt: y }) => x == y,
        (
            RetryState::Backoff { next_attempt: x, delay_secs: dx },
            RetryState::Backoff { next_attempt: y, delay_secs: dy },
        ) => x == y && dx == dy,
        (RetryState::Exhausted, RetryState::Exhausted) => true,
        (RetryState::Failed { status: x }, RetryState::Failed { status: y }) => x == y,
        _ => false,
    }
}

impl LLMConfig {
    /// Advances the retry machine on an event. A success ends the
    /// chunk with the response's extracted content; 429 and transport
    /// failures back off with exponential delay until the attempt
    /// budget is spent; any other failure is terminal for this chunk.
    /// Terminal states never change.
    pub fn retry_step(&self, state: RetryState, event: LlmEvent) -> (r: RetryState)
        ensures
            state matches RetryState::Attempting { attempt } ==> match event {
                LlmEvent::Success { body } => r matches RetryState::Succeeded { content }
                    && content@ == extracted_content(body@),
                LlmEvent::HttpError { status } => r == (RetryState::Failed { status }),
                LlmEvent::RateLimited | LlmEvent::TransportError => if attempt
                    >= self.backoff_max_attempts {
                    r is Exhausted
                } else {
                    r == (RetryState::Backoff {
                        next_attempt: (attempt + 1) as u32,
                        delay_secs: delay_spec(
                            self.backoff_base_delay,
                            self.backoff_exponential_factor,
                            attempt as int,
                        ),
                    })
                },
            },
            !(state is Attempting) ==> state_matches(r, state),
    {
        match state {
            RetryState::Attempting { attempt } => match event {
                LlmEvent::Success { body } => {
                    let content = extract_content(body.as_slice());
                    RetryState::Succeeded { content }
                },
                LlmEvent::HttpError { status } => RetryState::Failed { status },
                _ => {
                    if attempt >= self.backoff_max_attempts {
                        RetryState::Exhausted
                    } else {
                        let d = delay_secs(
                            self.backoff_base_delay,
                            self.backoff_exponential_factor,
                            attempt,
                        );
                        RetryState::Backoff { next_attempt: attempt + 1, delay_secs: d }
                    }
                },
            },
            other => other,
        }
    }

    /// Leaves a backoff: the next request's attempt number.
    pub fn resume(&self, state: RetryState) -> (r: RetryState)
        ensures
            state matches RetryState::Backoff { next_attempt, .. } ==> r == (
            RetryState::Attempting { attempt: next_attempt }),
            !(state is Backoff) ==> state_matches(r, state),
    {
        match state {
            RetryState::Backoff { next_attempt, delay_secs } => RetryState::Attempting {
                attempt: next_attempt,
            },
            other => other,
        }
    }
}

/// The first position in `s` holding a result for order number `i`.
pub open spec fn first_with_index(s: Seq<(usize, Vec<u8>)>, i: int, k: int) -> Option<int>
    decreases s.len() - k,
{
    if k < 0 || k >= s.len() {
        Option::None
    } else if s[k].0 == i {
        Option::Some(k)
    } else {
        first_with_index(s, i, k + 1)
    }
}

/// The result texts arranged by their order numbers: slot `i` holds
/// the first result numbered `i`, or nothing.
pub open spec fn ordered_parts(s: Seq<(usize, Vec<u8>)>) -> Seq<Seq<u8>> {
    Seq::new(
        s.len(),
        |i: int|
            match first_with_index(s, i, 0) {
                Option::Some(k) => s[k].1@,
                Option::None => Seq::empty(),
            },
    )
}

/// Restores deterministic order over out-of-order completion results:
/// the chunks' texts sorted by their original order numbers, joined by
/// a blank line. Each result pairs a chunk's order number with its
/// text; when the numbers are exactly one per chunk, slot `i` is chunk
/// `i`'s text.
pub fn merge_results(results: &Vec<(usize, Vec<u8>)>) -> (r: Vec<u8>)
    ensures
        r@ == join_with(ordered_parts(results@), "\n\n".spec_bytes()),
{
    let mut parts: Vec<Vec<u8>> = Vec::new();
    let ghost gparts = ordered_parts(results@);
    let mut i: usize = 0;
    proof {
        assert(seqs_of(parts) =~= gparts.subrange(0, 0));
    }
    while i < results.len()
        invariant
            i <= results@.len(),
            gparts == ordered_parts(results@),
            gparts.len() == results@.len(),
            seqs_of(parts) == gparts.subrange(0, i as int),
        decreases results.len() - i,
    {
        let mut k: usize = 0;
        let mut found = false;
        let mut text: Vec<u8> = Vec::new();
        while k < results.len() && !found
            invariant
                k <= results@.len(),
                i < results@.len(),
                !found ==> first_with_index(results@, i as int, 0) == first_with_index(
                    results@,
                    i as int,
                    k as int,
                ),
                !found ==> text@ == Seq::<u8>::empty(),
                found ==> (first_with_index(results@, i as int, 0) matches Option::Some(m)
                    && text@ == results@[m].1@),
            decreases results@.len() - k + (if found {
                0int
            } else {
                1int
            }),
        {
            if results[k].0 == i {
                text = vstd::slice::slice_to_vec(results[k].1.as_slice());
                found = true;
            } else {
                k = k + 1;
            }
        }
        proof {
            if !found {
                assert(first_with_index(results@, i as int, results@.len() as int) is None);
            }
        }
        let ghost before = seqs_of(parts);
        let ghost tv = text@;
        parts.push(text);
        proof {
            assert(seqs_of(parts) =~= before.push(tv));
            assert(gparts.subrange(0, i as int).push(gparts[i as int]) =~= gparts.subrange(
                0,
                i + 1,
            ));
        }
        i = i + 1;
    }
    proof {
        assert(gparts.subrange(0, results@.len() as int) =~= gparts);
    }
    join_bytes(&parts, "\n\n".as_bytes())
}

} // verus!
