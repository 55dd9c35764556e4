//! The settings that the service starts with.

use vstd::prelude::*;

verus! {

/// Where the home automation server is, the token for it, and the climate
/// entities to drive.
pub struct Config {
    pub ha_url: String,
    pub ha_token: String,
    pub climate_entities: Vec<String>,
}

/// What `str::trim` returns for a text: the text without its leading and trailing
/// white space.
pub uninterp spec fn trimmed(text: Seq<char>) -> Seq<char>;

/// The fields of a comma-separated text, commas left out. A text without a comma
/// is one field, and so is the empty text.
pub open spec fn fields(text: Seq<char>) -> Seq<Seq<char>>
    decreases text.len(),
{
    if text.len() == 0 {
        seq![Seq::empty()]
    } else {
        let before = fields(text.drop_last());
        if text.last() == ',' {
            before.push(Seq::empty())
        } else {
            before.drop_last().push(before.last().push(text.last()))
        }
    }
}

impl Config {
    /// The settings with the given server address, token and entities.
    pub fn new(ha_url: &str, ha_token: &str, climate_entities: Vec<String>) -> (config: Config)
        ensures
            config.ha_url@ == ha_url@,
            config.ha_token@ == ha_token@,
            config.climate_entities == climate_entities,
    {
        Config { ha_url: ha_url.to_owned(), ha_token: ha_token.to_owned(), climate_entities }
    }

    /// The entity ids of a comma-separated list: each field of the list, trimmed.
    pub fn entity_ids(list: &str) -> (ids: Vec<String>)
        ensures
            ids@.len() == fields(list@).len(),
            forall|i: int| 0 <= i < ids@.len() ==> (#[trigger] ids@[i])@ == trimmed(fields(list@)[i]),
    {
        let n: usize = list.unicode_len();
        let mut ids: Vec<String> = Vec::new();
        let mut start: usize = 0;
        let mut i: usize = 0;
        while i < n
            invariant
                start <= i <= n,
                n == list@.len(),
                fields(list@.take(i as int)).len() == ids@.len() + 1,
                fields(list@.take(i as int)).last() == list@.subrange(start as int, i as int),
                forall|k: int|
                    0 <= k < ids@.len() ==> (#[trigger] ids@[k])@ == trimmed(
                        fields(list@.take(i as int))[k],
                    ),
            decreases n - i,
        {
            let ghost before = fields(list@.take(i as int));
            proof {
                assert(list@.take(i + 1).drop_last() =~= list@.take(i as int));
                assert(list@.take(i + 1).last() == list@[i as int]);
            }
            if list.get_char(i) == ',' {
                ids.push(trim_text(list.substring_char(start, i)));
                start = i + 1;
                proof {
                    assert(list@.subrange(start as int, i + 1) =~= Seq::<char>::empty());
                }
            } else {
                proof {
                    assert(list@.subrange(start as int, i + 1) =~= list@.subrange(
                        start as int,
                        i as int,
                    ).push(list@[i as int]));
                }
            }
            i += 1;
        }
        proof {
            assert(list@.take(n as int) =~= list@);
        }
        ids.push(trim_text(list.substring_char(start, n)));
        ids
    }
}

/// Calls `str::trim` and copies the result. The contract names the result: it
/// says that it depends on the characters of the text alone.
#[verifier::external_body]
fn trim_text(text: &str) -> (clean: String)
    ensures
        clean@ == trimmed(text@),
{
    text.trim().to_owned()
}

} // verus!
