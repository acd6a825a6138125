use vstd::prelude::*;
use crate::links::string_views;
use crate::peers::{listed_names, expected_names};
use crate::text::str_eq;

verus! {

/// What the star program was asked to do.
pub enum StarCommand {
    /// Fewer than two arguments: print the general usage.
    Usage,
    /// `<name> hub <port> <expected>`.
    Hub { name: String, port: String, expected: Vec<String> },
    /// `hub` with the wrong number of arguments.
    HubUsage,
    /// `<name> spoke <hub_ip:hub_port>`.
    Spoke { name: String, hub_addr: String },
    /// `spoke` with the wrong number of arguments.
    SpokeUsage,
    /// A role other than `hub` or `spoke`.
    UnknownRole { role: String },
}

/// What the bus program was asked to do.
pub enum BusCommand {
    /// No argument: print the usage.
    Usage,
    /// `segment <port> <expected>`.
    Segment { port: String, expected: Vec<String> },
    /// `segment` with the wrong number of arguments.
    SegmentUsage,
    /// `<name> station <segment_ip:segment_port>`.
    Station { name: String, segment_addr: String },
    /// Anything else.
    StationUsage,
}

/// The arguments of the mesh and ring programs: a node's name and the roster.
pub struct NodeArgs {
    pub my_name: String,
    pub roster: String,
}

/// The arguments of the two-peer chat.
pub struct ChatArgs {
    pub name: String,
    pub listen_port: String,
    pub peer_addr: String,
}

/// Reads the star program's arguments (program name first).
pub fn star_command(args: &Vec<String>) -> (r: StarCommand)
    ensures
        args@.len() < 3 ==> r is Usage,
        args@.len() >= 3 && args@[2]@ == "hub"@ ==> if args@.len() == 5 {
            r matches StarCommand::Hub { name, port, expected } && name@ == args@[1]@ && port@
                == args@[3]@ && string_views(expected@) == listed_names(args@[4]@)
        } else {
            r is HubUsage
        },
        args@.len() >= 3 && args@[2]@ == "spoke"@ ==> if args@.len() == 4 {
            r matches StarCommand::Spoke { name, hub_addr } && name@ == args@[1]@ && hub_addr@
                == args@[3]@
        } else {
            r is SpokeUsage
        },
        args@.len() >= 3 && args@[2]@ != "hub"@ && args@[2]@ != "spoke"@ ==> (r matches StarCommand::UnknownRole {
            role,
        } && role@ == args@[2]@),
{
    proof {
        reveal_strlit("hub");
        reveal_strlit("spoke");
        assert("hub"@.len() != "spoke"@.len());
    }
    if args.len() < 3 {
        return StarCommand::Usage;
    }
    if str_eq(args[2].as_str(), "hub") {
        if args.len() != 5 {
            return StarCommand::HubUsage;
        }
        StarCommand::Hub {
            name: args[1].clone(),
            port: args[3].clone(),
            expected: expected_names(args[4].as_str()),
        }
    } else if str_eq(args[2].as_str(), "spoke") {
        if args.len() != 4 {
            return StarCommand::SpokeUsage;
        }
        StarCommand::Spoke { name: args[1].clone(), hub_addr: args[3].clone() }
    } else {
        StarCommand::UnknownRole { role: args[2].clone() }
    }
}

/// Reads the bus program's arguments (program name first).
pub fn bus_command(args: &Vec<String>) -> (r: BusCommand)
    ensures
        args@.len() < 2 ==> r is Usage,
        args@.len() >= 2 && args@[1]@ == "segment"@ ==> if args@.len() == 4 {
            r matches BusCommand::Segment { port, expected } && port@ == args@[2]@ && string_views(
                expected@,
            ) == listed_names(args@[3]@)
        } else {
            r is SegmentUsage
        },
        args@.len() >= 2 && args@[1]@ != "segment"@ ==> if args@.len() == 4 && args@[2]@
            == "station"@ {
            r matches BusCommand::Station { name, segment_addr } && name@ == args@[1]@
                && segment_addr@ == args@[3]@
        } else {
            r is StationUsage
        },
{
    if args.len() < 2 {
        return BusCommand::Usage;
    }
    if str_eq(args[1].as_str(), "segment") {
        if args.len() != 4 {
            return BusCommand::SegmentUsage;
        }
        BusCommand::Segment { port: args[2].clone(), expected: expected_names(args[3].as_str()) }
    } else {
        if args.len() != 4 || !str_eq(args[2].as_str(), "station") {
            return BusCommand::StationUsage;
        }
        BusCommand::Station { name: args[1].clone(), segment_addr: args[3].clone() }
    }
}

/// Reads the arguments of the mesh or ring program: exactly a name and a
/// roster after the program name.
pub fn node_args(args: &Vec<String>) -> (r: Option<NodeArgs>)
    ensures
        r is Some <==> args@.len() == 3,
        r matches Some(a) ==> a.my_name@ == args@[1]@ && a.roster@ == args@[2]@,
{
    if args.len() != 3 {
        return None;
    }
    Some(NodeArgs { my_name: args[1].clone(), roster: args[2].clone() })
}

/// Reads the arguments of the two-peer chat: exactly a name, a port to
/// listen on and the peer's address after the program name.
pub fn chat_args(args: &Vec<String>) -> (r: Option<ChatArgs>)
    ensures
        r is Some <==> args@.len() == 4,
        r matches Some(a) ==> a.name@ == args@[1]@ && a.listen_port@ == args@[2]@ && a.peer_addr@
            == args@[3]@,
{
    if args.len() != 4 {
        return None;
    }
    Some(ChatArgs { name: args[1].clone(), listen_port: args[2].clone(), peer_addr: args[3].clone() })
}

} // verus!
