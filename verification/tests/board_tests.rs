use lib::board::Board;
use lib::graph::Graph;
use lib::pieces::{Bunny, Fox, InvalidBoardError, Move, Mushroom};
use std::collections::hash_map::DefaultHasher;
use std::hash::{Hash, Hasher};

fn parse_board(lines: &[&str]) -> Board {
    let mut board = Board::new();
    let mut fox_cells = Vec::new();

    for (row, line) in lines.iter().enumerate() {
        for (column, cell) in line.chars().enumerate() {
            let position = (column, 4 - row);
            match cell {
                'B' => board.add_bunny(Bunny { pos: position }).unwrap(),
                'F' => fox_cells.push(position),
                'M' => board.add_mushroom(Mushroom { pos: position }).unwrap(),
                '.' => {}
                _ => panic!("invalid board cell: {cell}"),
            }
        }
    }

    for cells in fox_cells.chunks_exact(2) {
        board
            .add_fox(
                Fox {
                    pos1: cells[0],
                    pos2: cells[1],
                }
                .normalize(),
            )
            .unwrap();
    }

    board
}

fn constellation_60() -> Board {
    let mut board = Board::new();
    board.add_bunny(Bunny { pos: (3, 0) }).unwrap();
    board.add_bunny(Bunny { pos: (4, 2) }).unwrap();
    board.add_bunny(Bunny { pos: (3, 3) }).unwrap();
    board.add_mushroom(Mushroom { pos: (0, 1) }).unwrap();
    board.add_mushroom(Mushroom { pos: (2, 2) }).unwrap();
    board.add_mushroom(Mushroom { pos: (3, 4) }).unwrap();
    board
        .add_fox(
            Fox {
                pos1: (0, 3),
                pos2: (1, 3),
            }
            .normalize(),
        )
        .unwrap();
    board
}

/// The solution of constellation 60 as a listing of boards separated by blank lines,
/// the winning position first and the starting position last.
fn recorded_solution_60() -> String {
    let board = constellation_60();
    let (graph, winning_board) = Graph::generate_solution_graph_from_board(&board);
    let winning_board = winning_board.unwrap();
    let pictures: Vec<String> = graph
        .path_to(&winning_board)
        .iter()
        .rev()
        .map(|state| state.to_string())
        .collect();
    pictures.join("\n")
}

#[test]
fn recorded_solution_contains_only_legal_transitions() {
    let listing = recorded_solution_60();
    let states: Vec<Board> = listing
        .split("\n\n")
        .map(|state| parse_board(&state.lines().collect::<Vec<_>>()))
        .collect();

    assert_eq!(states.len(), 83);
    assert!(states.first().unwrap().is_in_win_state());
    let mut initial_bunnies = states.last().unwrap().bunnies.clone();
    initial_bunnies.sort();
    assert_eq!(
        initial_bunnies,
        vec![
            Bunny { pos: (3, 0) },
            Bunny { pos: (3, 3) },
            Bunny { pos: (4, 2) },
        ]
    );

    for (index, states) in states.windows(2).enumerate() {
        assert!(
            states[1].can_move_to(&states[0]),
            "illegal transition between states {} and {}",
            index,
            index + 1
        );
    }
}

#[test]
fn reordered_entities_have_the_same_hash() {
    let mut first = Board::new();
    first.add_bunny(Bunny { pos: (1, 1) }).unwrap();
    first.add_bunny(Bunny { pos: (3, 3) }).unwrap();
    first.add_mushroom(Mushroom { pos: (0, 1) }).unwrap();
    first.add_mushroom(Mushroom { pos: (2, 2) }).unwrap();

    let mut second = Board::new();
    second.add_bunny(Bunny { pos: (3, 3) }).unwrap();
    second.add_bunny(Bunny { pos: (1, 1) }).unwrap();
    second.add_mushroom(Mushroom { pos: (2, 2) }).unwrap();
    second.add_mushroom(Mushroom { pos: (0, 1) }).unwrap();

    let mut first_hasher = DefaultHasher::new();
    first.hash(&mut first_hasher);
    let mut second_hasher = DefaultHasher::new();
    second.hash(&mut second_hasher);

    assert_eq!(first, second);
    assert_eq!(first_hasher.finish(), second_hasher.finish());
    assert_eq!(first.state_key(), second.state_key());
}

#[test]
fn incomplete_board_is_not_a_win() {
    let mut board = Board::new();
    board.add_bunny(Bunny { pos: (0, 0) }).unwrap();

    assert!(!board.is_in_win_state());
}

#[test]
fn symmetries_share_a_canonical_state_key() {
    let mut board = Board::new();
    board.add_bunny(Bunny { pos: (1, 1) }).unwrap();
    board.add_bunny(Bunny { pos: (3, 3) }).unwrap();
    board.add_bunny(Bunny { pos: (2, 0) }).unwrap();
    board.add_mushroom(Mushroom { pos: (0, 1) }).unwrap();
    board
        .add_fox(
            Fox {
                pos1: (0, 3),
                pos2: (1, 3),
            }
            .normalize(),
        )
        .unwrap();

    let canonical = board.state_key().canonical();
    assert_eq!(canonical, board.rotate90().state_key().canonical());
    assert_eq!(canonical, board.flip_x().state_key().canonical());
}

#[test]
fn constellation_60_keeps_shortest_solution_depth() {
    let board = constellation_60();

    let (graph, winning_board) = Graph::generate_solution_graph_from_board(&board);
    let winning_board = winning_board.unwrap();
    let path = graph.path_to(&winning_board);
    let moves = graph.moves_to(&winning_board);

    assert_eq!(moves.len(), 82);
    assert_eq!(path.len(), moves.len() + 1);
    assert!(path.last().unwrap().is_in_win_state());
    for states in path.windows(2) {
        assert!(states[0].can_move_to(&states[1]));
    }
}

#[test]
fn every_rotation_and_reflection_shares_the_canonical_key() {
    let board = constellation_60();
    let canonical = board.state_key().canonical();
    assert_eq!(canonical, board.rotate90().state_key().canonical());
    assert_eq!(canonical, board.rotate180().state_key().canonical());
    assert_eq!(canonical, board.rotate270().state_key().canonical());
    assert_eq!(canonical, board.flip_x().state_key().canonical());
    assert_eq!(canonical, board.flip_y().state_key().canonical());
    assert_ne!(board.state_key(), board.rotate90().state_key());
}

#[test]
fn rotations_and_reflections_move_the_pieces() {
    let mut board = Board::new();
    board.add_bunny(Bunny { pos: (1, 0) }).unwrap();
    board.add_mushroom(Mushroom { pos: (4, 3) }).unwrap();
    board
        .add_fox(Fox {
            pos1: (0, 3),
            pos2: (1, 3),
        })
        .unwrap();

    let turned = board.rotate90();
    assert_eq!(turned.bunnies, vec![Bunny { pos: (0, 3) }]);
    assert_eq!(turned.mushrooms, vec![Mushroom { pos: (3, 0) }]);
    assert_eq!(
        turned.foxes,
        vec![Fox {
            pos1: (3, 3),
            pos2: (3, 4),
        }]
    );

    let mirrored = board.flip_x();
    assert_eq!(mirrored.bunnies, vec![Bunny { pos: (3, 0) }]);
    assert_eq!(mirrored.mushrooms, vec![Mushroom { pos: (0, 3) }]);
    assert_eq!(
        mirrored.foxes,
        vec![Fox {
            pos1: (3, 3),
            pos2: (4, 3),
        }]
    );

    assert_eq!(board.rotate180().bunnies, vec![Bunny { pos: (3, 4) }]);
    assert_eq!(board.rotate270().bunnies, vec![Bunny { pos: (4, 1) }]);
    assert_eq!(board.flip_y().bunnies, vec![Bunny { pos: (1, 4) }]);
    assert_eq!(board.rotate90().rotate270(), board);
}

#[test]
fn the_picture_shows_each_piece_with_mushrooms_on_top() {
    let mut board = Board::new();
    board.add_bunny(Bunny { pos: (0, 0) }).unwrap();
    board.add_mushroom(Mushroom { pos: (2, 2) }).unwrap();
    board
        .add_fox(Fox {
            pos1: (1, 4),
            pos2: (1, 3),
        })
        .unwrap_err();
    board
        .add_fox(Fox {
            pos1: (1, 3),
            pos2: (1, 4),
        })
        .unwrap();

    assert_eq!(board.to_string(), ".F...\n.F...\n..M..\n.....\nB....\n");
    assert_eq!(Board::new().to_string(), ".....\n.....\n.....\n.....\n.....\n");
}

#[test]
fn placement_errors_name_the_broken_rule() {
    let mut board = Board::new();
    assert_eq!(
        board.add_bunny(Bunny { pos: (5, 0) }),
        Err(InvalidBoardError::OutOfBounds)
    );
    assert_eq!(
        board.add_mushroom(Mushroom { pos: (0, 7) }),
        Err(InvalidBoardError::OutOfBounds)
    );
    board.add_bunny(Bunny { pos: (1, 1) }).unwrap();
    assert_eq!(
        board.add_mushroom(Mushroom { pos: (1, 1) }),
        Err(InvalidBoardError::InvalidPosition)
    );
    assert_eq!(
        board.add_fox(Fox {
            pos1: (1, 1),
            pos2: (1, 2),
        }),
        Err(InvalidBoardError::InvalidPosition)
    );
    assert_eq!(
        board.add_fox(Fox {
            pos1: (1, 2),
            pos2: (1, 4),
        }),
        Err(InvalidBoardError::FoxNotConnected)
    );
    assert_eq!(
        board.add_fox(Fox {
            pos1: (0, 0),
            pos2: (1, 0),
        }),
        Err(InvalidBoardError::FoxNotOnOddLane)
    );
    assert_eq!(
        board.add_fox(Fox {
            pos1: (4, 3),
            pos2: (3, 3),
        }),
        Err(InvalidBoardError::FoxNotNormalized)
    );
    assert_eq!(
        board.add_fox(Fox {
            pos1: (5, 3),
            pos2: (4, 3),
        }),
        Err(InvalidBoardError::OutOfBounds)
    );
    assert_eq!(board.bunnies.len(), 1);
    assert!(board.foxes.is_empty());
    assert!(board.mushrooms.is_empty());
    assert!(!board.is_empty());
    assert!(Board::new().is_empty());
}

#[test]
fn filled_positions_list_each_covered_cell_once() {
    let board = constellation_60();
    let mut cells = board.get_filled_positions();
    cells.sort();
    assert_eq!(
        cells,
        vec![(0, 1), (0, 3), (1, 3), (2, 2), (3, 0), (3, 3), (3, 4), (4, 2)]
    );
    assert!(board.is_position_filled((1, 3)));
    assert!(!board.is_position_filled((1, 2)));
}

#[test]
fn bunnies_jump_over_rows_of_pieces() {
    let mut board = Board::new();
    board.add_bunny(Bunny { pos: (1, 1) }).unwrap();
    board.add_mushroom(Mushroom { pos: (2, 1) }).unwrap();
    board.add_bunny(Bunny { pos: (3, 1) }).unwrap();
    board.add_mushroom(Mushroom { pos: (1, 2) }).unwrap();
    assert_eq!(
        board.get_possible_bunny_moves(&Bunny { pos: (1, 1) }),
        vec![Bunny { pos: (4, 1) }, Bunny { pos: (1, 3) }]
    );
    assert_eq!(
        board.get_possible_bunny_moves(&Bunny { pos: (3, 1) }),
        vec![Bunny { pos: (0, 1) }]
    );

    let board = constellation_60();
    assert!(board
        .get_possible_bunny_moves(&Bunny { pos: (3, 3) })
        .is_empty());
}

#[test]
fn foxes_slide_along_their_lane() {
    let board = constellation_60();
    let fox = Fox {
        pos1: (0, 3),
        pos2: (1, 3),
    };
    assert_eq!(
        board.get_possible_fox_moves(&fox),
        vec![Fox {
            pos1: (1, 3),
            pos2: (2, 3),
        }]
    );

    let mut board = Board::new();
    board
        .add_fox(Fox {
            pos1: (3, 1),
            pos2: (3, 2),
        })
        .unwrap();
    assert_eq!(
        board.get_possible_fox_moves(&Fox {
            pos1: (3, 1),
            pos2: (3, 2),
        }),
        vec![
            Fox {
                pos1: (3, 2),
                pos2: (3, 3),
            },
            Fox {
                pos1: (3, 3),
                pos2: (3, 4),
            },
            Fox {
                pos1: (3, 0),
                pos2: (3, 1),
            },
        ]
    );
}

#[test]
fn keys_follow_moves() {
    let board = constellation_60();
    let key = board.state_key();
    assert_eq!(key.bunnies, (1 << 3) | (1 << 14) | (1 << 18));
    assert_eq!(key.mushrooms, (1 << 5) | (1 << 12) | (1 << 23));
    assert_eq!(key.foxes.len(), 1);

    for movement in board.get_all_moves() {
        let next = board.apply_move(&movement).unwrap();
        assert_eq!(key.apply_move(&movement), next.state_key());
        assert!(board.can_move_to(&next));
    }
    assert_eq!(
        board.get_all_possible_moves().len(),
        board.get_all_moves().len()
    );
}

#[test]
fn moves_apply_to_the_moved_piece_only() {
    let board = constellation_60();
    let moved = board
        .clone()
        .move_bunny(&Bunny { pos: (4, 2) }, Bunny { pos: (1, 2) })
        .unwrap();
    assert_eq!(moved.bunnies.len(), 3);
    assert!(moved.bunnies.contains(&Bunny { pos: (1, 2) }));
    assert!(!moved.bunnies.contains(&Bunny { pos: (4, 2) }));
    assert_eq!(moved.mushrooms, board.mushrooms);

    let slid = board
        .clone()
        .move_fox(
            &Fox {
                pos1: (0, 3),
                pos2: (1, 3),
            },
            Fox {
                pos1: (1, 3),
                pos2: (2, 3),
            },
        )
        .unwrap();
    assert_eq!(
        slid.foxes,
        vec![Fox {
            pos1: (1, 3),
            pos2: (2, 3),
        }]
    );

    let blocked = board
        .clone()
        .move_bunny(&Bunny { pos: (4, 2) }, Bunny { pos: (2, 2) });
    assert_eq!(blocked.unwrap_err(), InvalidBoardError::InvalidPosition);

    let movement = Move::Bunny {
        from: Bunny { pos: (4, 2) },
        to: Bunny { pos: (1, 2) },
    };
    assert_eq!(board.apply_move(&movement).unwrap(), moved);
}

#[test]
fn a_winning_board_is_its_own_solution() {
    let mut board = Board::new();
    board.add_bunny(Bunny { pos: (0, 0) }).unwrap();
    board.add_bunny(Bunny { pos: (4, 4) }).unwrap();
    board.add_bunny(Bunny { pos: (2, 2) }).unwrap();
    assert!(board.is_in_win_state());

    let (graph, winning_board) = Graph::generate_solution_graph_from_board(&board);
    let winning_board = winning_board.unwrap();
    assert_eq!(winning_board, board);
    assert_eq!(graph.path_to(&winning_board), vec![board.clone()]);
    assert!(graph.moves_to(&winning_board).is_empty());
    assert_eq!(graph.root, board);
}

#[test]
fn a_board_without_three_bunnies_has_no_solution() {
    let mut board = Board::new();
    board.add_bunny(Bunny { pos: (1, 0) }).unwrap();
    board.add_mushroom(Mushroom { pos: (1, 1) }).unwrap();

    let (_graph, winning_board) = Graph::generate_solution_graph_from_board(&board);
    assert!(winning_board.is_none());
}

#[test]
fn normalizing_puts_the_smaller_coordinate_sum_first() {
    let fox = Fox {
        pos1: (2, 3),
        pos2: (1, 3),
    };
    assert_eq!(
        fox.normalize(),
        Fox {
            pos1: (1, 3),
            pos2: (2, 3),
        }
    );
    let kept = Fox {
        pos1: (3, 1),
        pos2: (3, 2),
    };
    assert_eq!(kept.normalize(), kept);
}

#[test]
fn a_one_move_solution_takes_one_move() {
    let mut board = Board::new();
    board.add_bunny(Bunny { pos: (0, 0) }).unwrap();
    board.add_bunny(Bunny { pos: (4, 4) }).unwrap();
    board.add_bunny(Bunny { pos: (2, 4) }).unwrap();
    board.add_mushroom(Mushroom { pos: (2, 3) }).unwrap();
    assert!(!board.is_in_win_state());

    let (graph, winning_board) = Graph::generate_solution_graph_from_board(&board);
    let winning_board = winning_board.unwrap();
    let moves = graph.moves_to(&winning_board);
    assert_eq!(
        moves,
        vec![Move::Bunny {
            from: Bunny { pos: (2, 4) },
            to: Bunny { pos: (2, 2) },
        }]
    );
    let path = graph.path_to(&winning_board);
    assert_eq!(path.len(), 2);
    assert_eq!(path[0], board);
    assert!(path[1].is_in_win_state());
}

#[test]
fn four_quarter_turns_or_two_mirrors_give_the_board_back() {
    let board = constellation_60();
    let turned = board.rotate90().rotate90().rotate90().rotate90();
    assert_eq!(turned.bunnies, board.bunnies);
    assert_eq!(turned.foxes, board.foxes);
    assert_eq!(turned.mushrooms, board.mushrooms);

    let mirrored = board.flip_x().flip_x();
    assert_eq!(mirrored.bunnies, board.bunnies);
    assert_eq!(mirrored.foxes, board.foxes);
    assert_eq!(mirrored.mushrooms, board.mushrooms);

    let half = board.rotate90().rotate90();
    assert_eq!(half.foxes, board.rotate180().foxes);
    assert_eq!(half.bunnies, board.rotate180().bunnies);
}

#[test]
fn equal_boards_hold_the_same_pieces_in_any_order() {
    let mut first = Board::new();
    first.add_bunny(Bunny { pos: (1, 0) }).unwrap();
    first.add_bunny(Bunny { pos: (0, 1) }).unwrap();
    let mut second = Board::new();
    second.add_bunny(Bunny { pos: (0, 1) }).unwrap();
    second.add_bunny(Bunny { pos: (1, 0) }).unwrap();
    assert_eq!(first, second);

    let mut third = Board::new();
    third.add_bunny(Bunny { pos: (0, 1) }).unwrap();
    third.add_bunny(Bunny { pos: (1, 1) }).unwrap();
    assert_ne!(first, third);
}

#[test]
fn the_search_reaches_its_start_and_knows_the_way_there() {
    let board = constellation_60();
    let (graph, winning_board) = Graph::generate_solution_graph_from_board(&board);
    let winning_board = winning_board.unwrap();
    assert!(graph.reached(&board));
    assert!(graph.reached(&winning_board));
    assert_eq!(graph.path_to(&board), vec![board.clone()]);
    assert!(graph.moves_to(&board).is_empty());
    assert_eq!(graph.path_to(&board)[0], graph.root);

    let mut elsewhere = Board::new();
    elsewhere.add_bunny(Bunny { pos: (0, 0) }).unwrap();
    assert!(!graph.reached(&elsewhere));
}

#[test]
fn placed_pieces_make_a_position_unless_a_fox_lies_across_lanes() {
    assert!(Board::new().is_position());
    assert!(constellation_60().is_position());

    let mut slanted = Board::new();
    slanted
        .add_fox(Fox {
            pos1: (1, 0),
            pos2: (2, 1),
        })
        .unwrap();
    assert!(!slanted.is_position());
}

#[test]
fn every_move_is_undone_by_the_reverse_move() {
    let board = constellation_60();
    let moves = board.get_all_moves();
    assert!(!moves.is_empty());
    for movement in &moves {
        let next = board.apply_move(movement).unwrap();
        assert_ne!(next, board);
        let back = match *movement {
            Move::Bunny { from, to } => Move::Bunny { from: to, to: from },
            Move::Fox { from, to } => Move::Fox { from: to, to: from },
        };
        assert!(next.get_all_moves().contains(&back));
        assert_eq!(next.apply_move(&back).unwrap(), board);
        assert!(board.can_move_to(&next));
        assert!(next.can_move_to(&board));
    }
    assert!(!board.can_move_to(&board));
}

#[test]
fn the_move_list_names_each_move_once() {
    let board = constellation_60();
    let moves = board.get_all_moves();
    for (i, first) in moves.iter().enumerate() {
        for second in moves.iter().skip(i + 1) {
            assert_ne!(first, second);
        }
    }
}
