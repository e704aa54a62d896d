//! What holds of every way in which texts are embedded.
use crate::config::{EmbedderView, OllamaView};
use crate::embedder::{
    chosen_embedder, model_of, ollama_requests, ordered, ChoiceView, IndexedVector,
    OllamaRequestView,
};
use crate::sorting::{in_order, lemma_in_order, lemma_in_order_contains, rank_le, ranking};
use crate::text::{blank, without_trailing};
use vstd::prelude::*;

verus! {

/// The texts of requests, one behind the other.
pub open spec fn asked_texts(requests: Seq<OllamaRequestView>) -> Seq<Seq<char>>
    decreases requests.len(),
{
    if requests.len() == 0 {
        Seq::empty()
    } else {
        asked_texts(requests.drop_last()) + requests.last().texts
    }
}

/// All texts are asked for, each once and in their order, from the server and the
/// model that are configured: in one request where the server takes that, else one
/// by one.
pub proof fn law_all_texts_are_asked_for(config: OllamaView, list: Seq<Seq<char>>)
    ensures
        ({
            let requests = ollama_requests(config, list);
            &&& asked_texts(requests) == list
            &&& requests.len() == if config.batch {
                1
            } else {
                list.len()
            }
            &&& forall|i: int|
                0 <= i < requests.len() ==> {
                    let request = #[trigger] requests[i];
                    &&& request.model == config.model
                    &&& request.batch == config.batch
                    &&& !config.batch ==> request.texts.len() == 1
                    &&& request.url == without_trailing(config.base_url, '/') + if config.batch {
                        "/api/embed"@
                    } else {
                        "/api/embeddings"@
                    }
                }
        }),
{
    let requests = ollama_requests(config, list);
    if config.batch {
        assert(requests.drop_last() =~= Seq::<OllamaRequestView>::empty());
        assert(asked_texts(requests.drop_last()) =~= Seq::<Seq<char>>::empty());
        assert(asked_texts(requests) =~= list);
    } else {
        lemma_asked_one_by_one(requests, list);
    }
}

/// Requests with one text each ask for these texts.
proof fn lemma_asked_one_by_one(requests: Seq<OllamaRequestView>, list: Seq<Seq<char>>)
    requires
        requests.len() == list.len(),
        forall|i: int|
            0 <= i < list.len() ==> (#[trigger] requests[i]).texts == Seq::<Seq<char>>::empty().push(
                list[i],
            ),
    ensures
        asked_texts(requests) == list,
    decreases list.len(),
{
    if list.len() > 0 {
        let before = requests.drop_last();
        assert forall|i: int| 0 <= i < list.drop_last().len() implies (#[trigger] before[i]).texts
            == Seq::<Seq<char>>::empty().push(list.drop_last()[i]) by {
            assert(before[i] == requests[i]);
        }
        lemma_asked_one_by_one(before, list.drop_last());
        assert(requests[list.len() - 1].texts == Seq::<Seq<char>>::empty().push(list.last()));
        assert(asked_texts(requests) =~= list);
    } else {
        assert(asked_texts(requests) =~= list);
    }
}

/// Embeddings that are answered with the positions of their texts stand at these
/// positions, in whatever order they were answered.
pub proof fn law_embeddings_find_their_places<E>(data: Seq<(int, Seq<E>)>, j: int)
    requires
        forall|i: int| 0 <= i < data.len() ==> 0 <= (#[trigger] data[i]).0 < data.len(),
        forall|i: int, k: int|
            0 <= i < k < data.len() ==> (#[trigger] data[i]).0 != (#[trigger] data[k]).0,
        0 <= j < data.len(),
    ensures
        ordered(data).len() == data.len(),
        ordered(data)[data[j].0] == data[j].1,
{
    broadcast use vstd::seq_lib::group_to_multiset_ensures;

    let rank = ranking::<IndexedVector<E>>(false);
    let sorted = in_order(data, rank);
    lemma_in_order(data, rank);
    assert(data.no_duplicates()) by {
        assert forall|a: int, b: int| 0 <= a < data.len() && 0 <= b < data.len() && a
            != b implies data[a] != data[b] by {
            if a < b {
                assert(data[a].0 != data[b].0);
            } else {
                assert(data[b].0 != data[a].0);
            }
        }
    }
    data.lemma_multiset_has_no_duplicates();
    sorted.lemma_multiset_has_no_duplicates_conv();
    assert forall|i: int, k: int| 0 <= i < k < sorted.len() implies (#[trigger] sorted[i]).0 < (
    #[trigger] sorted[k]).0 by {
        assert(rank_le(rank(sorted[i]), rank(sorted[k])));
        assert(sorted[i] != sorted[k]);
        lemma_in_order_contains(data, rank, sorted[i]);
        lemma_in_order_contains(data, rank, sorted[k]);
        assert(sorted.contains(sorted[i]) && sorted.contains(sorted[k]));
        let a = choose|a: int| 0 <= a < data.len() && data[a] == sorted[i];
        let b = choose|b: int| 0 <= b < data.len() && data[b] == sorted[k];
        if a < b {
            assert(data[a].0 != data[b].0);
        } else {
            assert(data[b].0 != data[a].0);
        }
    }
    assert forall|i: int| 0 <= i < sorted.len() implies 0 <= (#[trigger] sorted[i]).0
        < data.len() by {
        lemma_in_order_contains(data, rank, sorted[i]);
        assert(sorted.contains(sorted[i]));
        let a = choose|a: int| 0 <= a < data.len() && data[a] == sorted[i];
        assert(0 <= data[a].0 < data.len());
    }
    lemma_strictly_ascending(sorted);
    lemma_in_order_contains(data, rank, data[j]);
    assert(data.contains(data[j]));
    let i = choose|i: int| 0 <= i < sorted.len() && sorted[i] == data[j];
    assert(sorted[i].0 == i);
}

/// Different numbers below the length of a list, in order, are its positions.
proof fn lemma_strictly_ascending<E>(sorted: Seq<(int, Seq<E>)>)
    requires
        forall|i: int, k: int|
            0 <= i < k < sorted.len() ==> (#[trigger] sorted[i]).0 < (#[trigger] sorted[k]).0,
        forall|i: int| 0 <= i < sorted.len() ==> 0 <= (#[trigger] sorted[i]).0 < sorted.len(),
    ensures
        forall|i: int| 0 <= i < sorted.len() ==> (#[trigger] sorted[i]).0 == i,
{
    assert forall|i: int| 0 <= i < sorted.len() implies (#[trigger] sorted[i]).0 == i by {
        lemma_not_below(sorted, i);
        lemma_not_above(sorted, i);
    }
}

/// A number is not below its position.
proof fn lemma_not_below<E>(sorted: Seq<(int, Seq<E>)>, i: int)
    requires
        forall|i: int, k: int|
            0 <= i < k < sorted.len() ==> (#[trigger] sorted[i]).0 < (#[trigger] sorted[k]).0,
        forall|i: int| 0 <= i < sorted.len() ==> 0 <= (#[trigger] sorted[i]).0 < sorted.len(),
        0 <= i < sorted.len(),
    ensures
        sorted[i].0 >= i,
    decreases i,
{
    if i > 0 {
        lemma_not_below(sorted, i - 1);
        assert(sorted[i - 1].0 < sorted[i].0);
    } else {
        assert(0 <= sorted[i].0);
    }
}

/// A number is not above its position.
proof fn lemma_not_above<E>(sorted: Seq<(int, Seq<E>)>, i: int)
    requires
        forall|i: int, k: int|
            0 <= i < k < sorted.len() ==> (#[trigger] sorted[i]).0 < (#[trigger] sorted[k]).0,
        forall|i: int| 0 <= i < sorted.len() ==> 0 <= (#[trigger] sorted[i]).0 < sorted.len(),
        0 <= i < sorted.len(),
    ensures
        sorted[i].0 <= i,
    decreases sorted.len() - i,
{
    if i + 1 < sorted.len() {
        lemma_not_above(sorted, i + 1);
        assert(sorted[i].0 < sorted[i + 1].0);
    } else {
        assert(sorted[i].0 < sorted.len());
    }
}

/// The embedder is the one of the provider, made of the part of the configuration
/// that is meant for it, with as many jobs at once as configured. What it needs has
/// to be there.
pub proof fn law_provider_is_used(config: EmbedderView)
    ensures
        match chosen_embedder(config) {
            Ok(ChoiceView::Bge(model, place, jobs)) => {
                &&& config.provider == "fastembed"@
                &&& config.fastembed is Some
                &&& model_of((config.fastembed->0).model) == Ok::<_, Seq<char>>(model)
                &&& place == (config.fastembed->0).model_path
                &&& !blank(place)
                &&& jobs == config.concurrency
            },
            Ok(ChoiceView::Ollama(own, jobs)) => {
                &&& config.provider == "ollama"@
                &&& config.ollama == Some(own)
                &&& !blank(own.base_url)
                &&& !blank(own.model)
                &&& jobs == config.concurrency
            },
            Ok(ChoiceView::OpenAi(own, jobs)) => {
                &&& config.provider == "openai"@
                &&& config.openai == Some(own)
                &&& !blank(own.api_key_env)
                &&& !blank(own.model)
                &&& jobs == config.concurrency
            },
            Err(_) => {
                &&& config.provider == "fastembed"@ ==> config.fastembed is None || blank(
                    (config.fastembed->0).model_path,
                ) || model_of((config.fastembed->0).model) is Err
                &&& config.provider == "ollama"@ ==> config.ollama is None || blank(
                    (config.ollama->0).base_url,
                ) || blank((config.ollama->0).model)
                &&& config.provider == "openai"@ ==> config.openai is None || blank(
                    (config.openai->0).api_key_env,
                ) || blank((config.openai->0).model)
            },
        },
{
    reveal_strlit("fastembed");
    reveal_strlit("ollama");
    reveal_strlit("openai");
    assert("fastembed"@.len() == 9);
    assert("ollama"@.len() == 6);
    assert("openai"@.len() == 6);
    assert("ollama"@[1] != "openai"@[1]);
}

/// Different names stand for different models.
pub proof fn law_models_differ(a: Seq<char>, b: Seq<char>)
    requires
        model_of(Some(a)) is Ok,
        model_of(Some(a)) == model_of(Some(b)),
    ensures
        a == b,
{
}

} // verus!
