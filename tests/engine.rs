use hue_flow_core::engine::colours_to_states;
use hue_flow_core::models::LightState;
use std::collections::HashMap;

#[test]
fn colours_become_ascending_updates() {
    let mut m = HashMap::new();
    m.insert(9u8, (1u8, 2u8, 3u8));
    m.insert(2u8, (4u8, 5u8, 6u8));
    let states = colours_to_states(&m);
    assert_eq!(
        states,
        vec![
            LightState { id: 2, r: 4, g: 5, b: 6 },
            LightState { id: 9, r: 1, g: 2, b: 3 }
        ]
    );
    assert!(colours_to_states(&HashMap::new()).is_empty());
}
