use signal_codification::routing::{port_event, port_role, LinkRequest, PortIds, PortRole};

fn text(s: &str) -> Option<String> {
    Some(s.to_string())
}

#[test]
fn ports_are_recognised_by_name_then_path() {
    let any = text("Calf Studio Gear:input_2");
    assert_eq!(
        PortRole::TapeSimulatorIn,
        port_role(&any, &text("Tape Simulator In #1"), true, true)
    );
    assert_eq!(
        PortRole::TapeSimulatorOut,
        port_role(&any, &text("Tape Simulator Out #1"), true, true)
    );
    assert_eq!(
        PortRole::CassetteOutput,
        port_role(&text("alsa_playback.Cassette:output_0"), &text("output_FL"), true, true)
    );
    assert_eq!(
        PortRole::Playback,
        port_role(&text("alsa:pcm:1:front:1:playback:playback_0"), &text("playback_FL"), true, true)
    );
    // the name wins over the path
    assert_eq!(
        PortRole::TapeSimulatorIn,
        port_role(&text("alsa_playback.Cassette:output_0"), &text("Tape Simulator In #1"), true, true)
    );
    // other ports, and ports missing a property, are ignored
    assert_eq!(PortRole::Other, port_role(&any, &text("input_2"), true, true));
    assert_eq!(PortRole::Other, port_role(&any, &text("Tape Simulator In #1"), false, true));
    assert_eq!(PortRole::Other, port_role(&any, &text("Tape Simulator In #1"), true, false));
    assert_eq!(PortRole::Other, port_role(&None, &text("Tape Simulator In #1"), true, true));
    assert_eq!(
        PortRole::Other,
        port_role(&text("alsa_playback.Cassette:output_0"), &None, true, true)
    );
}

#[test]
fn the_cassette_output_is_linked_to_the_tape_simulator_input() {
    let s = PortIds::new();
    let (s, link) = port_event(s, PortRole::TapeSimulatorIn, 59, 2);
    assert_eq!(None, link);
    assert_eq!((Some(59), Some(2)), (s.tape_node, s.tape_in_port));
    let (s, link) = port_event(s, PortRole::TapeSimulatorOut, 59, 3);
    assert_eq!(None, link);
    assert_eq!((Some(59), Some(2), Some(3)), (s.tape_node, s.tape_in_port, s.tape_out_port));
    let (s, link) = port_event(s, PortRole::Playback, 52, 0);
    assert_eq!(None, link);
    assert_eq!((Some(52), Some(0)), (s.playback_node, s.playback_port));
    let (s2, link) = port_event(s, PortRole::Other, 1, 1);
    assert_eq!(None, link);
    assert_eq!(s, s2);
    let (s, link) = port_event(s, PortRole::CassetteOutput, 66, 56);
    assert_eq!(
        Some(LinkRequest { output_node: 66, output_port: 56, input_node: 59, input_port: 2 }),
        link
    );
    assert_eq!((Some(66), Some(56)), (s.cassette_node, s.cassette_port));
}
