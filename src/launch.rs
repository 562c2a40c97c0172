use vstd::prelude::*;

use crate::jav_config::JavConfig;

verus! {

/// The arguments that the client is started with: each launch parameter as
/// its key followed by its value, parameters in the order of their keys'
/// first appearance.
pub fn launch_arguments(config: &JavConfig) -> (r: Vec<String>)
    ensures
        r.len() == 2 * config.params.pairs().len(),
        forall|i: int|
            0 <= i < config.params.pairs().len() ==> r[2 * i]@ == (#[trigger] config.params.pairs()[i]).0
                && r[2 * i + 1]@ == config.params.pairs()[i].1,
{
    let entries = config.params.entries();
    let mut r: Vec<String> = Vec::new();
    for n in 0..entries.len()
        invariant
            entries@.len() == config.params.pairs().len(),
            crate::table::view_pairs(entries@) == config.params.pairs(),
            r.len() == 2 * n,
            forall|i: int|
                0 <= i < n ==> r[2 * i]@ == (#[trigger] config.params.pairs()[i]).0 && r[2 * i
                    + 1]@ == config.params.pairs()[i].1,
    {
        let (key, value) = &entries[n];
        assert(config.params.pairs()[n as int] == (key@, value@));
        r.push(key.clone());
        r.push(value.clone());
    }
    r
}

} // verus!
