use robonav::algorithms::Algorithm;
use robonav::tools::Tool;
use robonav::ui_state::{UIState, UI};

#[test]
fn algorithm_descriptions_name_their_frontier() {
    assert!(Algorithm::Bfs.description().contains("queue (FIFO)"));
    assert!(Algorithm::Dfs.description().contains("stack (LIFO)"));
    assert!(Algorithm::AStar.description().contains("f = g + h"));
}

#[test]
fn tool_labels() {
    assert_eq!(Tool::SetStart.shortcut_key(), 's');
    assert_eq!(Tool::SetGoal.shortcut_key(), 'g');
    assert_eq!(Tool::AddObstacle.shortcut_key(), 'w');
    assert_eq!(Tool::RemoveObstacle.shortcut_key(), 'e');
    assert_eq!(Tool::AddObstacle.description(), "Add walls/obstacles that block the path");
    assert_eq!(Tool::SetGoal.icon(), "🔴");
}

#[test]
fn panels_start_visible() {
    let s = UIState::default();
    assert!(s.show_inspector && s.show_statistics);
    let u = UI::new();
    assert!(u.show_inspector && u.show_statistics && !u.show_settings);
}
