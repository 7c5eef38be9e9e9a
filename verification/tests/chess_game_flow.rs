use spielesammlung::chess::{Color, Meeple, Type};
use spielesammlung::chess_game::{
    create_basic_possible_moves, get_meeples_from_color, walk_and_replace, ChessGame, ChessState, Engine, MoveStep,
    RemoteMessage, RemoteOutcome,
};

fn play(game: &mut ChessGame, from: (usize, usize), to: (usize, usize)) -> MoveStep {
    game.show_moves(from);
    let shown = game.shown_moves.clone().unwrap_or_default();
    assert!(shown.contains(&to), "move {:?} -> {:?} should be shown, got {:?}", from, to, shown);
    game.move_meeple(to)
}

/// A game with only the given pieces, `turn` to move, one move already made.
fn position(pieces: &[Meeple], turn: Color) -> ChessGame {
    let mut game = ChessGame::new();
    game.game_board = [[None; 8]; 8];
    for m in pieces {
        game.game_board[m.pos.0][m.pos.1] = Some(*m);
    }
    game.turn = turn;
    game.state = ChessState::Running;
    game.logs.push(((0, 0), (0, 0)));
    game.get_all_possible_moves();
    game
}

#[test]
fn new_game_setup() {
    let game = ChessGame::new();
    assert_eq!(game.state, ChessState::Initial);
    assert_eq!(game.turn, Color::White);
    assert_eq!(game.game_board[4][7].unwrap().typ, Type::King);
    assert_eq!(game.game_board[3][0].unwrap().typ, Type::Queen);
    assert_eq!(game.game_board[3][0].unwrap().value, 90);
    assert_eq!(game.game_board[1][7].unwrap().value, 27);
    assert_eq!(game.game_board[0][1].unwrap().color, Color::Black);
    assert!(game.game_board[4][4].is_none());
    assert_eq!(game.logs, vec![((42, 42), (42, 42))]);
    assert_eq!(game.possible_bot_level, 3);
    assert!(game.engine.is_none());
}

#[test]
fn opening_moves_table() {
    let t = create_basic_possible_moves();
    assert_eq!(t[3][6], Some(vec![(3, 5), (3, 4)]));
    assert_eq!(t[1][7], Some(vec![(0, 5), (2, 5)]));
    assert_eq!(t[6][7], Some(vec![(7, 5), (5, 5)]));
    assert_eq!(t[4][7], None);
    assert_eq!(t[0][1], None);
}

#[test]
fn piece_lists_keep_kings_last() {
    let game = ChessGame::new();
    let (white, black) = get_meeples_from_color(&game.game_board, Color::White);
    assert_eq!(white.len(), 16);
    assert_eq!(black.len(), 16);
    assert_eq!(white[0].pos, (0, 6));
    assert_eq!(white[15].typ, Type::King);
    assert_eq!(black[15].typ, Type::King);
    assert_eq!(black[0].pos, (0, 0));
    assert_eq!(black[4].pos, (5, 0));
}

#[test]
fn walking_replaces_what_stood_there() {
    let mut board = [[None; 8]; 8];
    board[0][0] = Some(Meeple::new((0, 0), Type::Rook, Color::White, 50));
    board[0][5] = Some(Meeple::new((0, 5), Type::Pawn, Color::Black, 10));
    walk_and_replace((0, 0), (0, 5), &mut board);
    assert!(board[0][0].is_none());
    assert_eq!(board[0][5].unwrap().typ, Type::Rook);
    assert_eq!(board[0][5].unwrap().pos, (0, 5));
}

#[test]
fn first_move_passes_the_turn() {
    let mut game = ChessGame::new();
    assert_eq!(play(&mut game, (4, 6), (4, 4)), MoveStep::Finished);
    assert_eq!(game.turn, Color::Black);
    assert_eq!(game.state, ChessState::Running);
    assert!(game.game_board[4][6].is_none());
    assert_eq!(game.game_board[4][4].unwrap().move_counter, 1);
    assert_eq!(game.logs.last(), Some(&((4, 6), (4, 4))));
    assert!(game.shown_moves.is_none());
    // Black's moves are ready, White's are gone
    assert_eq!(game.possible_moves[4][1], Some(vec![(4, 2), (4, 3)]));
    assert_eq!(game.possible_moves[4][4], None);
}

#[test]
fn fools_mate_ends_the_game() {
    let mut game = ChessGame::new();
    play(&mut game, (5, 6), (5, 5));
    play(&mut game, (4, 1), (4, 3));
    play(&mut game, (6, 6), (6, 4));
    play(&mut game, (3, 0), (7, 4));
    assert_eq!(game.state, ChessState::Won(Color::Black));
    // nothing moves any more
    game.clicked_meeple = (4, 7);
    assert_eq!(game.move_meeple((4, 6)), MoveStep::Ignored);
}

#[test]
fn third_repetition_is_a_tie() {
    let mut game = ChessGame::new();
    for _ in 0..2 {
        play(&mut game, (6, 7), (5, 5));
        play(&mut game, (6, 0), (5, 2));
        play(&mut game, (5, 5), (6, 7));
        play(&mut game, (5, 2), (6, 0));
        assert_eq!(game.state, ChessState::Running);
    }
    // the position after White's knight move comes the third time
    play(&mut game, (6, 7), (5, 5));
    assert_eq!(game.state, ChessState::TieByTripleRepetition);
    let before = game.logs.len();
    game.show_moves((6, 7));
    assert_eq!(game.move_meeple((5, 5)), MoveStep::Ignored);
    assert_eq!(game.logs.len(), before);
}

#[test]
fn castling_moves_the_rook() {
    let mut game = position(
        &[
            Meeple::new((4, 7), Type::King, Color::White, 0),
            Meeple::new((7, 7), Type::Rook, Color::White, 50),
            Meeple::new((4, 0), Type::King, Color::Black, 0),
        ],
        Color::White,
    );
    assert_eq!(play(&mut game, (4, 7), (6, 7)), MoveStep::Finished);
    assert_eq!(game.game_board[6][7].unwrap().typ, Type::King);
    assert_eq!(game.game_board[5][7].unwrap().typ, Type::Rook);
    assert_eq!(game.game_board[5][7].unwrap().pos, (5, 7));
    assert!(game.game_board[7][7].is_none());
}

#[test]
fn en_passant_takes_the_pawn() {
    let mut game = position(
        &[
            Meeple::new((4, 7), Type::King, Color::White, 0),
            Meeple::new((4, 3), Type::Pawn, Color::White, 10),
            Meeple::new((4, 0), Type::King, Color::Black, 0),
            Meeple::new((3, 1), Type::Pawn, Color::Black, 10),
        ],
        Color::Black,
    );
    play(&mut game, (3, 1), (3, 3));
    assert_eq!(play(&mut game, (4, 3), (3, 2)), MoveStep::Finished);
    assert!(game.game_board[3][3].is_none());
    assert_eq!(game.game_board[3][2].unwrap().color, Color::White);
}

#[test]
fn promotion_waits_for_the_player() {
    let mut game = position(
        &[
            Meeple::new((4, 7), Type::King, Color::White, 0),
            Meeple::new((0, 1), Type::Pawn, Color::White, 10),
            Meeple::new((7, 3), Type::King, Color::Black, 0),
        ],
        Color::White,
    );
    assert_eq!(play(&mut game, (0, 1), (0, 0)), MoveStep::Finished);
    assert!(game.pawn_mutate);
    assert!(!game.mutate_pawn(Type::Knight));
    assert!(!game.pawn_mutate);
    assert_eq!(game.game_board[0][0].unwrap().typ, Type::Knight);
    assert_eq!(game.game_board[0][0].unwrap().value, 30);
}

#[test]
fn engine_pawn_becomes_a_queen() {
    let mut game = position(
        &[
            Meeple::new((4, 7), Type::King, Color::White, 0),
            Meeple::new((0, 1), Type::Pawn, Color::White, 10),
            Meeple::new((7, 3), Type::King, Color::Black, 0),
        ],
        Color::White,
    );
    game.engine = Some(Engine::new(2, Color::White));
    assert_eq!(play(&mut game, (0, 1), (0, 0)), MoveStep::EngineMovesFirst);
    assert_eq!(game.game_board[0][0].unwrap().typ, Type::Queen);
    assert_eq!(game.game_board[0][0].unwrap().value, 90);
    assert_eq!(game.turn, Color::White);
    assert!(game.engine_to_move());
    game.finish_move();
    assert_eq!(game.turn, Color::Black);
    assert!(!game.engine_to_move());
}

#[test]
fn modes_of_play() {
    let mut game = ChessGame::new();
    assert_eq!(game.local_button_clicked(Some(2)), Some(2));
    assert_eq!(game.state, ChessState::PlayLocal);
    assert_eq!(game.bot_button_clicked(Some(4)), Some(4));
    assert_eq!(game.state, ChessState::PlayVsBot);
    let bot = game.engine.unwrap();
    assert_eq!((bot.level, bot.color), (4, Color::Black));
    play(&mut game, (4, 6), (4, 4));
    assert!(game.engine_to_move());
    game.engine_found_no_move();
    assert_eq!(game.state, ChessState::Won(Color::White));
    game.reset();
    assert_eq!(game.state, ChessState::Running);
    assert_eq!(game.engine.unwrap().level, 4);
    assert_eq!(game.turn, Color::White);
}

#[test]
fn network_moves() {
    let mut host = ChessGame::new();
    host.host_created();
    assert_eq!(host.state, ChessState::WaitingForOpponent);
    assert_eq!(host.multiplayer, Some(Color::White));
    host.start_multiplayer_game();
    assert_eq!(host.state, ChessState::MultiplayerAsBlack);
    assert_eq!(host.multiplayer, Some(Color::Black));

    let mut guest = ChessGame::new();
    guest.start_multiplayer_game();
    assert_eq!(guest.state, ChessState::MultiplayerAsWhite);
    assert_eq!(guest.pending_network_move(), None);
    play(&mut guest, (4, 6), (4, 4));
    assert_eq!(guest.pending_network_move(), Some(((4, 6), (4, 4))));
    // on its own turn the guest ignores what comes in; the host takes the move
    assert_eq!(host.receive_move((4, 6), (4, 4)), Some(MoveStep::Finished));
    assert_eq!(host.turn, Color::Black);
    assert_eq!(host.receive_move((4, 1), (4, 3)), None);
    // the host's clicks are ignored while the opponent is to move
    let mut waiting = ChessGame::new();
    waiting.multiplayer = Some(Color::Black);
    waiting.show_moves((4, 6));
    assert!(waiting.shown_moves.is_none());
}

#[test]
fn clicks_show_moves_then_move() {
    let mut game = ChessGame::new();
    // a click on a piece shows its moves
    assert!(!game.click_makes_move((4, 6)));
    assert_eq!(game.square_clicked((4, 6)), None);
    assert_eq!(game.clicked_meeple, (4, 6));
    assert_eq!(game.shown_moves, Some(vec![(4, 5), (4, 4)]));
    // a click on a square that is not shown selects that square instead
    assert!(!game.click_makes_move((3, 4)));
    assert_eq!(game.square_clicked((3, 4)), None);
    assert_eq!(game.clicked_meeple, (3, 4));
    assert_eq!(game.shown_moves, None);
    // a click on a shown move makes it
    game.square_clicked((4, 6));
    assert!(game.click_makes_move((4, 4)));
    assert!(game.move_possible((4, 4)));
    assert_eq!(game.square_clicked((4, 4)), Some(MoveStep::Finished));
    assert_eq!(game.logs.last(), Some(&((4, 6), (4, 4))));
    assert_eq!(game.turn, Color::Black);
    assert!(game.game_board[4][4].is_some());
}

#[test]
fn no_click_counts_while_a_pawn_waits() {
    let mut game = ChessGame::new();
    game.square_clicked((4, 6));
    game.pawn_mutate = true;
    assert!(!game.click_makes_move((4, 4)));
    assert_eq!(game.square_clicked((4, 4)), None);
    assert_eq!(game.logs.len(), 1);
}

#[test]
fn a_move_needs_a_piece_on_the_clicked_square() {
    let mut game = ChessGame::new();
    game.clicked_meeple = (4, 4);
    assert!(!game.move_possible((4, 3)));
    game.clicked_meeple = (4, 6);
    assert!(game.move_possible((4, 4)));
}

#[test]
fn an_engine_promotion_completes_unless_tied() {
    let mut game = position(
        &[
            Meeple::new((4, 7), Type::King, Color::White, 0),
            Meeple::new((0, 1), Type::Pawn, Color::White, 10),
            Meeple::new((7, 3), Type::King, Color::Black, 0),
        ],
        Color::White,
    );
    game.engine = Some(Engine::new(2, Color::White));
    assert_eq!(play(&mut game, (0, 1), (0, 0)), MoveStep::EngineMovesFirst);
    game.complete_after_promotion();
    assert_eq!(game.turn, Color::Black);

    let mut tied = position(
        &[
            Meeple::new((4, 7), Type::King, Color::White, 0),
            Meeple::new((7, 3), Type::King, Color::Black, 0),
        ],
        Color::White,
    );
    tied.repeat.push((vec!['k'], 3));
    tied.state = ChessState::TieByTripleRepetition;
    let turn = tied.turn;
    tied.complete_after_promotion();
    assert_eq!(tied.turn, turn);
    assert_eq!(tied.state, ChessState::TieByTripleRepetition);
}

#[test]
fn messages_of_the_opponent_move_the_piece() {
    let mut host = ChessGame::new();
    host.host_created();
    assert_eq!(host.on_remote(RemoteMessage::Other), RemoteOutcome::Nothing);
    assert_eq!(host.state, ChessState::WaitingForOpponent);
    assert_eq!(host.on_remote(RemoteMessage::OpponentJoined), RemoteOutcome::AwaitFirstMove);
    assert_eq!(host.state, ChessState::MultiplayerAsBlack);
    assert_eq!(host.on_remote(RemoteMessage::OpponentJoined), RemoteOutcome::Nothing);
    assert!(host.remote_move_possible((4, 6), (4, 4)));
    assert!(!host.remote_move_possible((4, 4), (4, 3)));
    assert!(!host.remote_move_possible((4, 6), (4, 9)));
    let out = host.on_remote(RemoteMessage::Move { from: (4, 6), to: (4, 4) });
    assert_eq!(out, RemoteOutcome::Moved(MoveStep::Finished));
    assert!(host.game_board[4][6].is_none());
    assert_eq!(host.game_board[4][4].unwrap().typ, Type::Pawn);
    assert_eq!(host.logs.last(), Some(&((4, 6), (4, 4))));
    assert_eq!(host.turn, Color::Black);
    // on its own turn a move that comes in is not played
    assert!(host.remote_move_possible((4, 1), (4, 9)));
    assert_eq!(host.on_remote(RemoteMessage::Move { from: (4, 1), to: (4, 3) }), RemoteOutcome::Nothing);
    assert!(host.game_board[4][1].is_some());
}
