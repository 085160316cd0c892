use std::collections::HashMap;
use vstd::prelude::*;

verus! {

#[verifier::external_type_specification]
#[verifier::external_body]
pub struct ExYamlError(serde_yaml::Error);

/// The social network that a YAML text holds, as a map from ids to the ids of their
/// friends; nothing where the text does not hold such a map.
pub uninterp spec fn yaml_network(text: Seq<u8>) -> Option<Map<u32, Vec<u32>>>;

/// Reads a YAML text as a map from ids to lists of ids with `serde_yaml::from_slice`. The
/// result is a function of the text alone: the map it holds, or an error where it holds
/// none. What the map is for a given text is left to serde_yaml.
#[verifier::external_body]
fn network_from_yaml(text: &[u8]) -> (read: Result<HashMap<u32, Vec<u32>>, serde_yaml::Error>)
    ensures
        read is Ok <==> yaml_network(text@) is Some,
        read is Ok ==> read->Ok_0@ == yaml_network(text@)->0,
{
    serde_yaml::from_slice(text)
}

/// Why a social network could not be read.
#[derive(Debug, Clone, Copy, PartialEq, Eq, Structural)]
pub enum NetworkError {
    /// The text is not YAML mapping ids to lists of ids.
    NotANetwork,
}

/// Read a social network from the text of a file
/// * text: YAML mapping ids to a list of ids
/// * Returns: A HashMap mapping ids, to the ids of their friends, or `NotANetwork` where
///   the text holds no such map
pub fn parse_network(text: &[u8]) -> (network: Result<HashMap<u32, Vec<u32>>, NetworkError>)
    ensures
        match yaml_network(text@) {
            Some(m) => network is Ok && network->Ok_0@ == m,
            None => network == Err::<HashMap<u32, Vec<u32>>, NetworkError>(NetworkError::NotANetwork),
        },
{
    match network_from_yaml(text) {
        Ok(network) => Ok(network),
        Err(_) => Err(NetworkError::NotANetwork),
    }
}

} // verus!
