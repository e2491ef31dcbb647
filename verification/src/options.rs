//! Named options and the values that they hold.
use vstd::prelude::*;
use crate::autotune::DeploymentProfile;
use crate::config::IndexType;
use crate::error;
use crate::error::{invalid_input, Error, ErrorView};
use crate::metric::MetricType;
use crate::text;
use crate::text::{is_text_before, parse_unsigned, same_text, trim};

verus! {

/// A named option. Beside the text of its value stand the bit patterns of the number that
/// the trimmed text denotes in single and in double precision, where it denotes one.
#[derive(Debug)]
pub struct OptionEntry {
    pub key: String,
    pub value: String,
    pub single: Option<u32>,
    pub double: Option<u64>,
}

/// The model of an [`OptionEntry`].
pub struct OptionView {
    pub key: Seq<char>,
    pub value: Seq<char>,
    pub single: Option<u32>,
    pub double: Option<u64>,
}

impl View for OptionEntry {
    type V = OptionView;

    open spec fn view(&self) -> OptionView {
        OptionView {
            key: self.key@,
            value: self.value@,
            single: self.single,
            double: self.double,
        }
    }
}

/// The models of entries.
pub open spec fn views(entries: Seq<OptionEntry>) -> Seq<OptionView> {
    Seq::new(entries.len(), |i: int| entries[i]@)
}

/// The option with a key.
pub open spec fn find(options: Seq<OptionView>, key: Seq<char>) -> Option<OptionView>
    decreases options.len(),
{
    if options.len() == 0 {
        None
    } else if options.last().key == key {
        Some(options.last())
    } else {
        find(options.drop_last(), key)
    }
}

/// The options of a list of entries: keys are trimmed, must not be empty and must differ.
pub open spec fn collected(entries: Seq<OptionView>) -> Result<Seq<OptionView>, ErrorView>
    decreases entries.len(),
{
    if entries.len() == 0 {
        Ok(Seq::empty())
    } else {
        match collected(entries.drop_last()) {
            Err(error) => Err(error),
            Ok(before) => {
                let entry = entries.last();
                let key = text::trimmed(entry.key);
                if key.len() == 0 {
                    Err(error::input_error("option key must not be empty"@))
                } else if find(before, key) is Some {
                    Err(error::input_error("duplicate option key '"@ + key + "'"@))
                } else {
                    Ok(before.push(OptionView { key, ..entry }))
                }
            },
        }
    }
}

/// The keys of collected options are trimmed, not empty, and differ from each other.
pub proof fn law_collected_keys(entries: Seq<OptionView>, options: Seq<OptionView>, i: int)
    requires
        collected(entries) == Ok::<Seq<OptionView>, ErrorView>(options),
        0 <= i < entries.len(),
    ensures
        options.len() == entries.len(),
        options[i].key == text::trimmed(entries[i].key),
        options[i].value == entries[i].value,
        options[i].key.len() > 0,
        find(options, options[i].key) == Some(options[i]),
        forall|j: int| 0 <= j < i ==> #[trigger] options[j].key != options[i].key,
    decreases entries.len(),
{
    let before = collected(entries.drop_last())->Ok_0;
    assert(options.drop_last() =~= before);
    lemma_collected_len(entries);
    lemma_collected_len(entries.drop_last());
    if i < entries.len() - 1 {
        law_collected_keys(entries.drop_last(), before, i);
        assert(before[i] == options[i]);
        assert(options.last().key != options[i].key);
    } else {
        assert forall|j: int| 0 <= j < i implies #[trigger] options[j].key != options[i].key by {
            law_collected_keys(entries.drop_last(), before, j);
            assert(before[j] == options[j]);
        }
    }
}

proof fn lemma_collected_len(entries: Seq<OptionView>)
    ensures
        collected(entries) matches Ok(options) ==> options.len() == entries.len(),
    decreases entries.len(),
{
    if entries.len() > 0 {
        lemma_collected_len(entries.drop_last());
    }
}

proof fn lemma_collected_error(entries: Seq<OptionView>, n: int)
    requires
        0 <= n <= entries.len(),
        collected(entries.subrange(0, n)) is Err,
    ensures
        collected(entries) == collected(entries.subrange(0, n)),
    decreases entries.len() - n,
{
    if n == entries.len() {
        assert(entries.subrange(0, n) =~= entries);
    } else {
        assert(entries.subrange(0, n + 1).drop_last() =~= entries.subrange(0, n));
        lemma_collected_error(entries, n + 1);
    }
}

/// Options by their keys, with the keys that were asked for.
#[derive(Debug)]
pub struct ConfigOptions {
    values: Vec<OptionEntry>,
    used: Vec<String>,
}

impl ConfigOptions {
    /// The options.
    pub closed spec fn options(&self) -> Seq<OptionView> {
        views(self.values@)
    }

    /// The keys that were asked for.
    pub closed spec fn asked(&self) -> Set<Seq<char>> {
        Set::new(|key: Seq<char>| texts(self.used@).contains(key))
    }

    /// Takes a list of entries.
    pub fn new(entries: &[OptionEntry]) -> (result: Result<Self, Error>)
        ensures
            match (result, collected(views(entries@))) {
                (Ok(options), Ok(wanted)) => {
                    &&& options.options() == wanted
                    &&& options.asked() == Set::<Seq<char>>::empty()
                },
                (Err(error), Err(wanted)) => error@ == wanted,
                _ => false,
            },
    {
        let mut options = ConfigOptions { values: Vec::new(), used: Vec::new() };
        let mut i: usize = 0;
        assert(views(entries@).subrange(0, 0) =~= Seq::empty());
        assert(options.options() =~= Seq::empty());
        while i < entries.len()
            invariant
                i <= entries.len(),
                options.used@.len() == 0,
                collected(views(entries@).subrange(0, i as int)) == Ok::<Seq<OptionView>, ErrorView>(
                    options.options(),
                ),
            decreases entries.len() - i,
        {
            let entry = &entries[i];
            let ghost all = views(entries@);
            let ghost prefix = all.subrange(0, i + 1);
            assert(prefix.drop_last() =~= all.subrange(0, i as int));
            assert(prefix.last() == entry@);
            let key = trim(entry.key.as_str());
            if key.unicode_len() == 0 {
                proof {
                    lemma_collected_error(all, i + 1);
                }
                return Err(invalid_input("option key must not be empty".to_owned()));
            }
            if options.position(key).is_some() {
                proof {
                    lemma_collected_error(all, i + 1);
                }
                let mut message = "duplicate option key '".to_owned();
                message.append(key);
                message.append("'");
                return Err(invalid_input(message));
            }
            let ghost before = options.options();
            let copy = OptionEntry {
                key: key.to_owned(),
                value: entry.value.as_str().to_owned(),
                single: entry.single,
                double: entry.double,
            };
            assert(copy@ == OptionView { key: text::trimmed(entry@.key), ..entry@ });
            options.values.push(copy);
            assert(options.options() =~= before.push(copy@));
            i = i + 1;
        }
        assert(views(entries@).subrange(0, i as int) =~= views(entries@));
        assert(options.asked() =~= Set::<Seq<char>>::empty());
        Ok(options)
    }

    fn position(&self, key: &str) -> (result: Option<usize>)
        ensures
            match result {
                Some(i) => i < self.values.len() && find(self.options(), key@) == Some(
                    self.values[i as int]@,
                ),
                None => find(self.options(), key@) is None,
            },
    {
        let mut i: usize = self.values.len();
        assert(self.options().subrange(0, i as int) =~= self.options());
        while i > 0
            invariant
                i <= self.values.len(),
                find(self.options(), key@) == find(self.options().subrange(0, i as int), key@),
            decreases i,
        {
            let ghost prefix = self.options().subrange(0, i as int);
            assert(prefix.last() == self.values[i - 1]@);
            if same_text(self.values[i - 1].key.as_str(), key) {
                return Some(i - 1);
            }
            assert(prefix.drop_last() =~= self.options().subrange(0, i - 1));
            i = i - 1;
        }
        None
    }

    /// The option with a key, if there is one.
    pub fn optional(&mut self, key: &str) -> (result: Option<OptionEntry>)
        ensures
            match (result, find(old(self).options(), key@)) {
                (Some(entry), Some(wanted)) => entry@ == wanted,
                (None, None) => true,
                _ => false,
            },
            final(self).options() == old(self).options(),
            final(self).asked() == old(self).asked().insert(key@),
    {
        let ghost before = texts(self.used@);
        self.used.push(key.to_owned());
        proof {
            let after = texts(self.used@);
            assert(after =~= before.push(key@));
            assert forall|k: Seq<char>| #[trigger]
                after.contains(k) == (before.contains(k) || k == key@) by {
                if before.contains(k) {
                    let i = choose|i: int| 0 <= i < before.len() && before[i] == k;
                    assert(after[i] == k);
                }
                assert(after[before.len() as int] == key@);
            }
            assert(self.asked() =~= old(self).asked().insert(key@));
        }
        match self.position(key) {
            Some(i) => {
                let entry = &self.values[i];
                Some(
                    OptionEntry {
                        key: entry.key.as_str().to_owned(),
                        value: entry.value.as_str().to_owned(),
                        single: entry.single,
                        double: entry.double,
                    },
                )
            },
            None => None,
        }
    }

    /// The option with a key, which must be there.
    pub fn required(&mut self, key: &str) -> (result: Result<OptionEntry, Error>)
        ensures
            match (result, required_option(old(self).options(), key@)) {
                (Ok(entry), Ok(wanted)) => entry@ == wanted,
                (Err(error), Err(wanted)) => error@ == wanted,
                _ => false,
            },
            final(self).options() == old(self).options(),
            final(self).asked() == old(self).asked().insert(key@),
    {
        match self.optional(key) {
            Some(entry) => Ok(entry),
            None => {
                let mut message = "missing required option '".to_owned();
                message.append(key);
                message.append("'");
                Err(invalid_input(message))
            },
        }
    }

    fn was_asked(&self, key: &str) -> (result: bool)
        ensures
            result == self.asked().contains(key@),
    {
        let mut i: usize = 0;
        while i < self.used.len()
            invariant
                i <= self.used.len(),
                forall|j: int| 0 <= j < i ==> #[trigger] texts(self.used@)[j] != key@,
            decreases self.used.len() - i,
        {
            if same_text(self.used[i].as_str(), key) {
                assert(texts(self.used@)[i as int] == key@);
                return true;
            }
            i = i + 1;
        }
        false
    }

    /// Checks that every option was asked for.
    pub fn reject_unknown(&self) -> (result: Result<(), Error>)
        ensures
            error::outcome(result) == only_known(self.options(), self.asked()),
    {
        let mut unknown: Vec<String> = Vec::new();
        let mut i: usize = 0;
        assert(self.options().subrange(0, 0) =~= Seq::empty());
        assert(texts(unknown@) =~= Seq::empty());
        while i < self.values.len()
            invariant
                i <= self.values.len(),
                texts(unknown@) == unknown_keys(
                    self.options().subrange(0, i as int),
                    self.asked(),
                ),
            decreases self.values.len() - i,
        {
            let ghost prefix = self.options().subrange(0, i + 1);
            assert(prefix.drop_last() =~= self.options().subrange(0, i as int));
            assert(prefix.last() == self.values[i as int]@);
            let key = self.values[i].key.as_str();
            if !self.was_asked(key) {
                insert_text(&mut unknown, key);
            }
            i = i + 1;
        }
        assert(self.options().subrange(0, i as int) =~= self.options());
        if unknown.len() == 0 {
            Ok(())
        } else {
            let mut message = "unknown vector index option(s): ".to_owned();
            message.append(join_texts(&unknown).as_str());
            Err(invalid_input(message))
        }
    }
}

/// What [`ConfigOptions::required`] answers.
pub open spec fn required_option(options: Seq<OptionView>, key: Seq<char>) -> Result<
    OptionView,
    ErrorView,
> {
    match find(options, key) {
        Some(option) => Ok(option),
        None => Err(error::input_error("missing required option '"@ + key + "'"@)),
    }
}

/// Whether every index type knows a key.
pub open spec fn common_key(key: Seq<char>) -> bool {
    ||| key == "index.type"@
    ||| key == "dimension"@
    ||| key == "expected-vector-count"@
    ||| key == "metric"@
    ||| key == "target-recall"@
    ||| key == "max-bytes-per-vector"@
    ||| key == "max-build-seconds"@
    ||| key == "deployment-profile"@
}

/// Whether index types with lists know a key.
pub open spec fn ivf_key(key: Seq<char>) -> bool {
    key == "ivf.coarse-assignment"@ || key == "nlist"@
}

/// Whether index types with product quantization know a key.
pub open spec fn pq_key(key: Seq<char>) -> bool {
    key == "pq.m"@ || key == "pq.code-ratio"@
}

/// Whether only graphs know a key.
pub open spec fn diskann_key(key: Seq<char>) -> bool {
    ||| key == "pq.bits"@
    ||| key == "diskann.build-preset"@
    ||| key == "diskann.seed"@
    ||| key == "diskann.memory-budget-bytes"@
    ||| key == "diskann.max-degree"@
    ||| key == "diskann.build-search-list-size"@
    ||| key == "diskann.alpha"@
    ||| key == "diskann.storage-layout"@
    ||| key == "diskann.raw-vector-encoding"@
    ||| key == "diskann.build-distance"@
}

/// Whether an index type knows a key.
pub open spec fn known_key(index_type: IndexType, key: Seq<char>) -> bool {
    common_key(key) || match index_type {
        IndexType::IvfFlat => ivf_key(key),
        IndexType::IvfSq => ivf_key(key),
        IndexType::IvfPq => ivf_key(key) || pq_key(key) || key == "use-opq"@,
        IndexType::IvfRq => ivf_key(key) || key == "rq.bits"@,
        IndexType::DiskAnn => pq_key(key) || diskann_key(key),
    }
}

/// The keys that an index type knows.
pub open spec fn known_keys(index_type: IndexType) -> Set<Seq<char>> {
    Set::new(|key: Seq<char>| known_key(index_type, key))
}

/// The characters of texts.
pub open spec fn texts(values: Seq<String>) -> Seq<Seq<char>> {
    Seq::new(values.len(), |i: int| values[i]@)
}

/// The place behind the last text that does not come after the given one.
pub open spec fn text_place(sorted: Seq<Seq<char>>, value: Seq<char>) -> int
    decreases sorted.len(),
{
    if sorted.len() > 0 && text::text_before(value, sorted.last()) {
        text_place(sorted.drop_last(), value)
    } else {
        sorted.len() as int
    }
}

/// Sorted texts with another one among them.
pub open spec fn text_inserted(sorted: Seq<Seq<char>>, value: Seq<char>) -> Seq<Seq<char>> {
    sorted.insert(text_place(sorted, value), value)
}

fn insert_text(sorted: &mut Vec<String>, value: &str)
    ensures
        texts(final(sorted)@) == text_inserted(texts(old(sorted)@), value@),
{
    let ghost all = texts(sorted@);
    let mut place: usize = sorted.len();
    assert(all.subrange(0, place as int) =~= all);
    while place > 0 && is_text_before(value, sorted[place - 1].as_str())
        invariant
            place <= sorted.len(),
            all == texts(sorted@),
            text_place(all, value@) == text_place(all.subrange(0, place as int), value@),
        decreases place,
    {
        assert(all.subrange(0, place as int).last() == sorted[place - 1]@);
        assert(all.subrange(0, place as int).drop_last() =~= all.subrange(0, place - 1));
        place = place - 1;
    }
    assert(place > 0 ==> all.subrange(0, place as int).last() == sorted[place - 1]@);
    assert(text_place(all, value@) == place);
    sorted.insert(place, value.to_owned());
    assert(texts(sorted@) =~= text_inserted(all, value@));
}

/// The keys of options that are not among the known ones, in lexicographic order.
pub open spec fn unknown_keys(options: Seq<OptionView>, known: Set<Seq<char>>) -> Seq<Seq<char>>
    decreases options.len(),
{
    if options.len() == 0 {
        Seq::empty()
    } else {
        let before = unknown_keys(options.drop_last(), known);
        if known.contains(options.last().key) {
            before
        } else {
            text_inserted(before, options.last().key)
        }
    }
}

/// Texts, separated by commas.
pub open spec fn joined_texts(values: Seq<Seq<char>>) -> Seq<char>
    decreases values.len(),
{
    if values.len() == 0 {
        Seq::empty()
    } else if values.len() == 1 {
        values[0]
    } else {
        joined_texts(values.drop_last()) + ", "@ + values.last()
    }
}

fn join_texts(values: &Vec<String>) -> (joined: String)
    requires
        values.len() > 0,
    ensures
        joined@ == joined_texts(texts(values@)),
{
    let mut joined = values[0].as_str().to_owned();
    let mut i: usize = 1;
    assert(texts(values@).subrange(0, 1)[0] == values[0]@);
    while i < values.len()
        invariant
            1 <= i <= values.len(),
            joined@ == joined_texts(texts(values@).subrange(0, i as int)),
        decreases values.len() - i,
    {
        let ghost prefix = texts(values@).subrange(0, i + 1);
        assert(prefix.drop_last() =~= texts(values@).subrange(0, i as int));
        assert(prefix.last() == values[i as int]@);
        joined.append(", ");
        joined.append(values[i].as_str());
        i = i + 1;
    }
    assert(texts(values@).subrange(0, i as int) =~= texts(values@));
    joined
}

/// What [`ConfigOptions::reject_unknown`] answers.
pub open spec fn only_known(options: Seq<OptionView>, known: Set<Seq<char>>) -> Result<
    (),
    ErrorView,
> {
    let unknown = unknown_keys(options, known);
    if unknown.len() == 0 {
        Ok(())
    } else {
        Err(error::input_error("unknown vector index option(s): "@ + joined_texts(unknown)))
    }
}

/// Options are accepted if and only if the key of every one is known.
pub proof fn law_only_known_options_are_accepted(options: Seq<OptionView>, known: Set<Seq<char>>)
    ensures
        only_known(options, known) is Ok <==> (forall|i: int|
            0 <= i < options.len() ==> known.contains((#[trigger] options[i]).key)),
    decreases options.len(),
{
    if options.len() > 0 {
        let before = options.drop_last();
        law_only_known_options_are_accepted(before, known);
        lemma_text_place(unknown_keys(before, known), options.last().key);
        if only_known(options, known) is Ok {
            assert forall|i: int| 0 <= i < options.len() implies known.contains((#[trigger] options[i]).key) by {
                if i < before.len() {
                    assert(before[i] == options[i]);
                }
            }
        } else if known.contains(options.last().key) {
            let i = choose|i: int|
                0 <= i < before.len() && !known.contains((#[trigger] before[i]).key);
            assert(before[i] == options[i]);
        }
    }
}

/// The unknown keys that an error names are in lexicographic order.
pub proof fn law_unknown_keys_are_sorted(options: Seq<OptionView>, known: Set<Seq<char>>)
    ensures
        text_sorted(unknown_keys(options, known)),
    decreases options.len(),
{
    if options.len() > 0 {
        law_unknown_keys_are_sorted(options.drop_last(), known);
        lemma_insertion_keeps_order(
            unknown_keys(options.drop_last(), known),
            options.last().key,
        );
    }
}

/// Whether no text stands before an earlier one.
pub open spec fn text_sorted(values: Seq<Seq<char>>) -> bool {
    forall|i: int, j: int|
        0 <= i < j < values.len() ==> !text::text_before(#[trigger] values[j], #[trigger] values[i])
}

proof fn lemma_place_parts(sorted: Seq<Seq<char>>, value: Seq<char>)
    ensures
        0 <= text_place(sorted, value) <= sorted.len(),
        text_place(sorted, value) > 0 ==> !text::text_before(
            value,
            sorted[text_place(sorted, value) - 1],
        ),
        forall|j: int|
            text_place(sorted, value) <= j < sorted.len() ==> text::text_before(
                value,
                #[trigger] sorted[j],
            ),
    decreases sorted.len(),
{
    if sorted.len() > 0 && text::text_before(value, sorted.last()) {
        lemma_place_parts(sorted.drop_last(), value);
        assert forall|j: int|
            text_place(sorted, value) <= j < sorted.len() implies text::text_before(
            value,
            #[trigger] sorted[j],
        ) by {
            if j < sorted.len() - 1 {
                assert(sorted.drop_last()[j] == sorted[j]);
            }
        }
    }
}

proof fn lemma_insertion_keeps_order(sorted: Seq<Seq<char>>, value: Seq<char>)
    requires
        text_sorted(sorted),
    ensures
        text_sorted(text_inserted(sorted, value)),
{
    lemma_place_parts(sorted, value);
    let place = text_place(sorted, value);
    let result = text_inserted(sorted, value);
    assert forall|i: int, j: int| 0 <= i < j < result.len() implies !text::text_before(
        #[trigger] result[j],
        #[trigger] result[i],
    ) by {
        if j == place {
            let last = sorted[place - 1];
            if i < place - 1 {
                assert(!text::text_before(last, sorted[i]));
                text::law_text_order(sorted[i], last, value);
            }
        } else if i == place {
            assert(result[j] == sorted[j - 1]);
            text::law_text_order(value, sorted[j - 1], value);
        } else {
            let a = if i < place {
                i
            } else {
                i - 1
            };
            let b = if j < place {
                j
            } else {
                j - 1
            };
            assert(result[i] == sorted[a] && result[j] == sorted[b]);
        }
    }
}

pub proof fn lemma_text_place(sorted: Seq<Seq<char>>, value: Seq<char>)
    ensures
        0 <= text_place(sorted, value) <= sorted.len(),
        text_inserted(sorted, value).len() == sorted.len() + 1,
    decreases sorted.len(),
{
    if sorted.len() > 0 && text::text_before(value, sorted.last()) {
        lemma_text_place(sorted.drop_last(), value);
    }
}

/// The number that an option stands for.
pub open spec fn number(name: Seq<char>, value: Seq<char>) -> Result<usize, ErrorView> {
    match text::parsed_unsigned(text::trimmed(value), usize::MAX as nat) {
        Some(n) => Ok(n as usize),
        None => Err(
            error::input_error("option '"@ + name + "' must be a positive integer"@),
        ),
    }
}

/// Reads the number that an option stands for.
pub fn parse_usize_option(name: &str, value: &str) -> (result: Result<usize, Error>)
    ensures
        error::outcome(result) == number(name@, value@),
{
    match parse_unsigned(trim(value), usize::MAX as u64) {
        Some(n) => Ok(n as usize),
        None => {
            let mut message = "option '".to_owned();
            message.append(name);
            message.append("' must be a positive integer");
            Err(invalid_input(message))
        },
    }
}

/// The 64-bit number that an option stands for.
pub open spec fn long_number(name: Seq<char>, value: Seq<char>) -> Result<u64, ErrorView> {
    match text::parsed_unsigned(text::trimmed(value), u64::MAX as nat) {
        Some(n) => Ok(n as u64),
        None => Err(
            error::input_error("option '"@ + name + "' must be a non-negative integer"@),
        ),
    }
}

/// Reads the 64-bit number that an option stands for.
pub fn parse_u64_option(name: &str, value: &str) -> (result: Result<u64, Error>)
    ensures
        error::outcome(result) == long_number(name@, value@),
{
    match parse_unsigned(trim(value), u64::MAX) {
        Some(n) => Ok(n),
        None => {
            let mut message = "option '".to_owned();
            message.append(name);
            message.append("' must be a non-negative integer");
            Err(invalid_input(message))
        },
    }
}

/// The error that an option does not denote a number.
pub open spec fn number_error(name: Seq<char>) -> ErrorView {
    error::input_error("option '"@ + name + "' must be a number"@)
}

fn not_a_number(name: &str) -> (error: Error)
    ensures
        error@ == number_error(name@),
{
    let mut message = "option '".to_owned();
    message.append(name);
    message.append("' must be a number");
    invalid_input(message)
}

/// The single-precision number that an option denotes.
pub open spec fn single(name: Seq<char>, option: OptionView) -> Result<u32, ErrorView> {
    match option.single {
        Some(bits) => Ok(bits),
        None => Err(number_error(name)),
    }
}

/// The single-precision number that an option denotes.
pub fn parse_f32_option(name: &str, entry: &OptionEntry) -> (result: Result<u32, Error>)
    ensures
        error::outcome(result) == single(name@, entry@),
{
    match entry.single {
        Some(bits) => Ok(bits),
        None => Err(not_a_number(name)),
    }
}

/// The double-precision number that an option denotes.
pub open spec fn double(name: Seq<char>, option: OptionView) -> Result<u64, ErrorView> {
    match option.double {
        Some(bits) => Ok(bits),
        None => Err(number_error(name)),
    }
}

/// The double-precision number that an option denotes.
pub fn parse_f64_option(name: &str, entry: &OptionEntry) -> (result: Result<u64, Error>)
    ensures
        error::outcome(result) == double(name@, entry@),
{
    match entry.double {
        Some(bits) => Ok(bits),
        None => Err(not_a_number(name)),
    }
}

/// The truth value that an option stands for.
pub open spec fn truth(name: Seq<char>, value: Seq<char>) -> Result<bool, ErrorView> {
    if text::trimmed(value) == "true"@ {
        Ok(true)
    } else if text::trimmed(value) == "false"@ {
        Ok(false)
    } else {
        Err(error::input_error("option '"@ + name + "' must be true or false"@))
    }
}

/// Reads the truth value that an option stands for.
pub fn parse_bool_option(name: &str, value: &str) -> (result: Result<bool, Error>)
    ensures
        error::outcome(result) == truth(name@, value@),
{
    let trimmed = trim(value);
    if same_text(trimmed, "true") {
        Ok(true)
    } else if same_text(trimmed, "false") {
        Ok(false)
    } else {
        let mut message = "option '".to_owned();
        message.append(name);
        message.append("' must be true or false");
        Err(invalid_input(message))
    }
}

/// The index type that an option stands for.
pub open spec fn named_index_type(value: Seq<char>) -> Result<IndexType, ErrorView> {
    let name = text::trimmed(value);
    if name == "ivf_flat"@ {
        Ok(IndexType::IvfFlat)
    } else if name == "ivf_pq"@ {
        Ok(IndexType::IvfPq)
    } else if name == "ivf_rq"@ {
        Ok(IndexType::IvfRq)
    } else if name == "ivf_sq"@ {
        Ok(IndexType::IvfSq)
    } else if name == "diskann"@ {
        Ok(IndexType::DiskAnn)
    } else {
        Err(
            error::input_error(
                "unknown index.type '"@ + value
                    + "'; expected ivf_flat, ivf_sq, ivf_pq, ivf_rq, or diskann"@,
            ),
        )
    }
}

/// Reads the index type that an option stands for.
pub fn parse_index_type_option(value: &str) -> (result: Result<IndexType, Error>)
    ensures
        error::outcome(result) == named_index_type(value@),
{
    let name = trim(value);
    if same_text(name, "ivf_flat") {
        Ok(IndexType::IvfFlat)
    } else if same_text(name, "ivf_pq") {
        Ok(IndexType::IvfPq)
    } else if same_text(name, "ivf_rq") {
        Ok(IndexType::IvfRq)
    } else if same_text(name, "ivf_sq") {
        Ok(IndexType::IvfSq)
    } else if same_text(name, "diskann") {
        Ok(IndexType::DiskAnn)
    } else {
        let mut message = "unknown index.type '".to_owned();
        message.append(value);
        message.append("'; expected ivf_flat, ivf_sq, ivf_pq, ivf_rq, or diskann");
        Err(invalid_input(message))
    }
}

/// The name of an index type, with white space around it or not, is read as that type.
pub proof fn law_index_type_names(index_type: IndexType, value: Seq<char>)
    requires
        text::trimmed(value) == index_type.name(),
    ensures
        named_index_type(value) == Ok::<IndexType, ErrorView>(index_type),
{
    reveal_strlit("ivf_flat");
    reveal_strlit("ivf_pq");
    reveal_strlit("ivf_rq");
    reveal_strlit("ivf_sq");
    reveal_strlit("diskann");
    assert("ivf_pq"@[4] == 'p' && "ivf_rq"@[4] == 'r' && "ivf_sq"@[4] == 's');
    assert("ivf_flat"@.len() == 8 && "diskann"@.len() == 7);
}

/// The metric that an option stands for.
pub open spec fn named_metric(value: Seq<char>) -> Result<MetricType, ErrorView> {
    let name = text::trimmed(value);
    if name == "l2"@ {
        Ok(MetricType::L2)
    } else if name == "inner_product"@ {
        Ok(MetricType::InnerProduct)
    } else if name == "cosine"@ {
        Ok(MetricType::Cosine)
    } else {
        Err(
            error::input_error(
                "unknown metric '"@ + value + "'; expected l2, inner_product, or cosine"@,
            ),
        )
    }
}

/// Reads the metric that an option stands for.
pub fn parse_metric_option(value: &str) -> (result: Result<MetricType, Error>)
    ensures
        error::outcome(result) == named_metric(value@),
{
    let name = trim(value);
    if same_text(name, "l2") {
        Ok(MetricType::L2)
    } else if same_text(name, "inner_product") {
        Ok(MetricType::InnerProduct)
    } else if same_text(name, "cosine") {
        Ok(MetricType::Cosine)
    } else {
        let mut message = "unknown metric '".to_owned();
        message.append(value);
        message.append("'; expected l2, inner_product, or cosine");
        Err(invalid_input(message))
    }
}

/// The deployment profile that an option stands for.
pub open spec fn named_profile(name: Seq<char>, value: Seq<char>) -> Result<
    DeploymentProfile,
    ErrorView,
> {
    let profile = text::trimmed(value);
    if profile == "auto"@ {
        Ok(DeploymentProfile::Auto)
    } else if profile == "memory"@ {
        Ok(DeploymentProfile::Memory)
    } else if profile == "local"@ || profile == "local_storage"@ {
        Ok(DeploymentProfile::LocalStorage)
    } else if profile == "remote"@ || profile == "remote_storage"@ {
        Ok(DeploymentProfile::RemoteStorage)
    } else if profile == "object_store"@ {
        Ok(DeploymentProfile::ObjectStore)
    } else {
        Err(
            error::input_error(
                "option '"@ + name
                    + "' must be auto, memory, local_storage, remote_storage, or object_store"@,
            ),
        )
    }
}

/// Reads the deployment profile that an option stands for.
pub fn parse_deployment_profile_option(name: &str, value: &str) -> (result: Result<
    DeploymentProfile,
    Error,
>)
    ensures
        error::outcome(result) == named_profile(name@, value@),
{
    let profile = trim(value);
    if same_text(profile, "auto") {
        Ok(DeploymentProfile::Auto)
    } else if same_text(profile, "memory") {
        Ok(DeploymentProfile::Memory)
    } else if same_text(profile, "local") || same_text(profile, "local_storage") {
        Ok(DeploymentProfile::LocalStorage)
    } else if same_text(profile, "remote") || same_text(profile, "remote_storage") {
        Ok(DeploymentProfile::RemoteStorage)
    } else if same_text(profile, "object_store") {
        Ok(DeploymentProfile::ObjectStore)
    } else {
        let mut message = "option '".to_owned();
        message.append(name);
        message.append(
            "' must be auto, memory, local_storage, remote_storage, or object_store",
        );
        Err(invalid_input(message))
    }
}

} // verus!
